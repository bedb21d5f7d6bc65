//! The semantic validator: duplicate declarations, the type hierarchy,
//! undefined symbols, and arity/type consistency, checked fail-fast in
//! declaration order.

use vstd::prelude::*;
use crate::errors::{
    ArityError, DuplicateError, SemanticErrorType, TypeError, UndefinedSymbolError,
};
use crate::graph::Digraph;
use crate::syntax_tree::{
    AbstractSyntaxTree, Action, CompoundTask, DomainAST, Formula, Method, Predicate, ProblemAST,
    TaskOrdering, Variable,
};
use crate::token_types::{RequirementType, TokenPosition};

verus! {

/// The names of a sequence of variables (or typed declarations).
pub open spec fn var_names(vs: Seq<Variable>) -> Seq<Seq<char>> {
    vs.map_values(|v: Variable| v.name@)
}

/// The declared names of a sequence of predicates.
pub open spec fn pred_names(ps: Seq<Predicate>) -> Seq<Seq<char>> {
    ps.map_values(|p: Predicate| p.name@)
}

/// The declared names of a sequence of compound tasks.
pub open spec fn task_names(ts: Seq<CompoundTask>) -> Seq<Seq<char>> {
    ts.map_values(|t: CompoundTask| t.name@)
}

/// The declared names of a sequence of actions.
pub open spec fn action_names(az: Seq<Action>) -> Seq<Seq<char>> {
    az.map_values(|a: Action| a.name@)
}

/// The declared names of a sequence of methods.
pub open spec fn method_names(ms: Seq<Method>) -> Seq<Seq<char>> {
    ms.map_values(|m: Method| m.name@)
}

/// No name occurs twice.
pub open spec fn all_distinct(names: Seq<Seq<char>>) -> bool {
    forall|i: int, j: int| 0 <= i < j < names.len() ==> names[i] != names[j]
}

/// The subtask at position `k` of method `m` invokes a declared
/// compound task or action.
pub open spec fn subtask_declared(d: DomainAST, m: int, k: int) -> bool {
    crate::tdg::ast_has_symbol(d, d.methods@[m].tn.subtasks@[k].task_symbol@)
}

/// Some requirement flag repeats.
pub open spec fn has_dup_req(reqs: Seq<RequirementType>) -> bool {
    exists|i: int, j: int|
        #![trigger reqs[i], reqs[j]]
        0 <= i < j < reqs.len() && reqs[i] == reqs[j]
}

/// Every predicate parameter names a known type (vacuous without a
/// type section).
pub open spec fn preds_types_ok(d: DomainAST) -> bool {
    d.types is Some ==> forall|i: int|
        0 <= i < d.predicates@.len() ==> var_types_known(
            spec_ts(d.types),
            (#[trigger] d.predicates@[i]).variables@,
        )
}

/// Every compound-task parameter names a known type.
pub open spec fn tasks_types_ok(d: DomainAST) -> bool {
    d.types is Some ==> forall|i: int|
        0 <= i < d.compound_tasks@.len() ==> var_types_known(
            spec_ts(d.types),
            (#[trigger] d.compound_tasks@[i]).parameters@,
        )
}

/// Every action parameter names a known type.
pub open spec fn actions_types_ok(d: DomainAST) -> bool {
    d.types is Some ==> forall|i: int|
        0 <= i < d.actions@.len() ==> var_types_known(
            spec_ts(d.types),
            (#[trigger] d.actions@[i]).parameters@,
        )
}

/// Every method parameter names a known type.
pub open spec fn methods_types_ok(d: DomainAST) -> bool {
    d.types is Some ==> forall|m: int|
        0 <= m < d.methods@.len() ==> var_types_known(
            spec_ts(d.types),
            (#[trigger] d.methods@[m]).params@,
        )
}

/// Every action precondition and effect is a valid formula under the
/// action's parameters.
pub open spec fn action_formulas_ok(d: DomainAST) -> bool {
    forall|i: int|
        0 <= i < d.actions@.len() ==> ((#[trigger] d.actions@[i]).preconditions is Some
            ==> formula_ok(
            d.predicates@,
            d.types is Some,
            spec_ts(d.types),
            d.actions@[i].parameters@,
            d.actions@[i].preconditions->0,
        )) && (d.actions@[i].effects is Some ==> formula_ok(
            d.predicates@,
            d.types is Some,
            spec_ts(d.types),
            d.actions@[i].parameters@,
            d.actions@[i].effects->0,
        ))
}

/// Every method precondition is a valid formula under the method's
/// parameters.
pub open spec fn method_preconditions_ok(d: DomainAST) -> bool {
    forall|m: int|
        0 <= m < d.methods@.len() ==> ((#[trigger] d.methods@[m]).precondition is Some
            ==> formula_ok(
            d.predicates@,
            d.types is Some,
            spec_ts(d.types),
            d.methods@[m].params@,
            d.methods@[m].precondition->0,
        ))
}

/// Method `m` decomposes a declared compound task with matching arity
/// and, under typing, argument terms whose types fit the task's
/// parameters.
pub open spec fn method_task_full_ok(d: DomainAST, m: int) -> bool {
    exists|t: int|
        0 <= t < d.compound_tasks@.len() && (#[trigger] d.compound_tasks@[t]).name@
            == d.methods@[m].task_name@ && d.compound_tasks@[t].parameters@.len()
            == d.methods@[m].task_terms@.len() && (d.types is Some ==> forall|k: int|
            0 <= k < d.methods@[m].task_terms@.len() ==> compat(
                spec_ts(d.types),
                env_type(d.methods@[m].params@, (#[trigger] d.methods@[m].task_terms@[k]).name@),
                opt_name_view(d.compound_tasks@[t].parameters@[k].var_type),
            ))
}

/// The ordering constraints of method `m` admit no label cycle.
pub open spec fn method_orderings_ok(d: DomainAST, m: int) -> bool {
    match d.methods@[m].tn.orderings {
        TaskOrdering::Total => true,
        TaskOrdering::Partial(pairs) => !has_order_cycle(pairs@),
    }
}

/// No compound task bears the name `nm`.
pub open spec fn task_undeclared(d: DomainAST, nm: Seq<char>) -> bool {
    forall|t: int| 0 <= t < d.compound_tasks@.len() ==> (#[trigger] d.compound_tasks@[t]).name@
        != nm
}

/// `t` is used as a declared parameter type somewhere in the domain.
pub open spec fn uses_type(d: DomainAST, t: Seq<char>) -> bool {
    ||| exists|i: int, k: int|
        0 <= i < d.predicates@.len() && 0 <= k < d.predicates@[i].variables@.len() && (
        #[trigger] d.predicates@[i].variables@[k]).var_type is Some
            && d.predicates@[i].variables@[k].var_type->0@ == t
    ||| exists|i: int, k: int|
        0 <= i < d.compound_tasks@.len() && 0 <= k < d.compound_tasks@[i].parameters@.len() && (
        #[trigger] d.compound_tasks@[i].parameters@[k]).var_type is Some
            && d.compound_tasks@[i].parameters@[k].var_type->0@ == t
    ||| exists|i: int, k: int|
        0 <= i < d.actions@.len() && 0 <= k < d.actions@[i].parameters@.len() && (
        #[trigger] d.actions@[i].parameters@[k]).var_type is Some
            && d.actions@[i].parameters@[k].var_type->0@ == t
    ||| exists|i: int, k: int|
        0 <= i < d.methods@.len() && 0 <= k < d.methods@[i].params@.len() && (
        #[trigger] d.methods@[i].params@[k]).var_type is Some
            && d.methods@[i].params@[k].var_type->0@ == t
}

/// Some action precondition or effect, or some method precondition,
/// holds the atom occurrence `p` with environment `env2` in force.
pub open spec fn domain_has_atom(d: DomainAST, p: Predicate, env2: Seq<Variable>) -> bool {
    ||| exists|i: int|
        0 <= i < d.actions@.len() && ((#[trigger] d.actions@[i]).preconditions is Some
            && formula_has_atom(
            d.actions@[i].preconditions->0,
            d.actions@[i].parameters@,
            p,
            env2,
        ) || d.actions@[i].effects is Some && formula_has_atom(
            d.actions@[i].effects->0,
            d.actions@[i].parameters@,
            p,
            env2,
        ))
    ||| exists|m: int|
        0 <= m < d.methods@.len() && (#[trigger] d.methods@[m]).precondition is Some
            && formula_has_atom(d.methods@[m].precondition->0, d.methods@[m].params@, p, env2)
}

/// The carried type error matches a real argument term of method `m`'s
/// task invocation against the decomposed task's parameter.
pub open spec fn task_arg_defect(d: DomainAST, m: int, e: TypeError) -> bool {
    exists|t: int, k: int|
        0 <= t < d.compound_tasks@.len() && d.compound_tasks@[t].name@ == d.methods@[m].task_name@
            && d.compound_tasks@[t].parameters@.len() == d.methods@[m].task_terms@.len() && 0 <= k
            < d.methods@[m].task_terms@.len() && d.methods@[m].task_terms@[k].name@ == e.var_name@
            && env_type(d.methods@[m].params@, e.var_name@) == opt_name_view(e.found)
            && opt_name_view((#[trigger] d.compound_tasks@[t].parameters@[k]).var_type)
            == opt_name_view(e.expected) && !compat(
            spec_ts(d.types),
            opt_name_view(e.found),
            opt_name_view(e.expected),
        )
}

/// Stage milestones, in the pipeline's order (the type hierarchy
/// checker first, then the duplicate and reference checks in
/// declaration order): each spec holds when every earlier stage found
/// nothing.
pub open spec fn stage_types_ok(d: DomainAST) -> bool {
    d.types is Some ==> !has_type_cycle(spec_ts(d.types))
}

pub open spec fn stage_reqs_ok(d: DomainAST) -> bool {
    stage_types_ok(d) && !has_dup_req(d.requirements@)
}

pub open spec fn stage_preds_distinct(d: DomainAST) -> bool {
    stage_reqs_ok(d) && all_distinct(pred_names(d.predicates@))
}

pub open spec fn stage_preds_ok(d: DomainAST) -> bool {
    stage_preds_distinct(d) && preds_types_ok(d)
}

pub open spec fn stage_tasks_distinct(d: DomainAST) -> bool {
    stage_preds_ok(d) && all_distinct(task_names(d.compound_tasks@))
}

pub open spec fn stage_tasks_ok(d: DomainAST) -> bool {
    stage_tasks_distinct(d) && tasks_types_ok(d)
}

pub open spec fn stage_actions_distinct(d: DomainAST) -> bool {
    stage_tasks_ok(d) && all_distinct(action_names(d.actions@))
}

pub open spec fn stage_actions_ok(d: DomainAST) -> bool {
    stage_actions_distinct(d) && actions_types_ok(d) && action_formulas_ok(d)
}

pub open spec fn stage_methods_distinct(d: DomainAST) -> bool {
    stage_actions_ok(d) && all_distinct(method_names(d.methods@))
}

/// The domain has none of the defects the validator reports: an
/// acyclic type hierarchy, no duplicate declarations in any category,
/// only known parameter types, valid formulas, consistent method task
/// references, declared subtasks, and acyclic subtask orderings.
pub open spec fn domain_ok(d: DomainAST) -> bool {
    &&& stage_methods_distinct(d)
    &&& methods_types_ok(d)
    &&& method_preconditions_ok(d)
    &&& (forall|m: int| 0 <= m < d.methods@.len() ==> method_task_full_ok(d, m))
    &&& (forall|m: int, k: int|
        0 <= m < d.methods@.len() && 0 <= k < d.methods@[m].tn.subtasks@.len()
            ==> subtask_declared(d, m, k))
    &&& (forall|m: int| 0 <= m < d.methods@.len() ==> method_orderings_ok(d, m))
}

/// What the validator's verdict means: success exactly on defect-free
/// domains; every error names a real defect of its kind, tied to its
/// occurrence and position, raised only when every earlier stage was
/// clean; the duplicates are the first repetition in declaration order
/// with both positions.  Which of several same-stage defects surfaces
/// follows the scan in declaration order; the verdict pins the
/// defect's existence and content, not that intra-stage choice.
pub open spec fn domain_verdict_ok(d: DomainAST, r: Result<(), SemanticErrorType>) -> bool {
    &&& (r is Ok <==> domain_ok(d))
    &&& (match r {
        Ok(_) => true,
        Err(SemanticErrorType::CyclicTypeDeclaration(nm)) => d.types is Some && on_type_cycle(
            spec_ts(d.types),
            nm@,
        ),
        Err(SemanticErrorType::DuplicateRequirementDeclaration(rq)) => stage_types_ok(d)
            && reports_first_dup_req(d.requirements@, rq),
        Err(SemanticErrorType::DuplicatePredicateDeclaration(e)) => stage_reqs_ok(d)
            && reports_first_dup(
            pred_names(d.predicates@),
            d.predicates@.map_values(|p: Predicate| p.position.line),
            e,
        ),
        Err(SemanticErrorType::UndefinedType(t)) => stage_preds_distinct(d) && d.types is Some
            && !type_known(spec_ts(d.types), t@) && uses_type(d, t@),
        Err(SemanticErrorType::DuplicateCompoundTaskDeclaration(e)) => stage_preds_ok(d)
            && reports_first_dup(
            task_names(d.compound_tasks@),
            d.compound_tasks@.map_values(|t: CompoundTask| t.position.line),
            e,
        ),
        Err(SemanticErrorType::DuplicateActionDeclaration(e)) => stage_tasks_ok(d)
            && reports_first_dup(
            action_names(d.actions@),
            d.actions@.map_values(|a: Action| a.position.line),
            e,
        ),
        Err(SemanticErrorType::UndefinedPredicate(u)) => stage_actions_distinct(d)
            && pred_undeclared(d.predicates@, u.symbol@) && (exists|
            p2: Predicate,
            env2: Seq<Variable>,
        |
            #[trigger] domain_has_atom(d, p2, env2) && p2.name@ == u.symbol@ && p2.position
                == u.position),
        Err(SemanticErrorType::InconsistentPredicateArity(a)) => stage_actions_distinct(d)
            && a.expected_arity != a.found_arity && (exists|t: int|
            0 <= t < d.predicates@.len() && (#[trigger] d.predicates@[t]).name@ == a.symbol@
                && d.predicates@[t].variables@.len() == a.expected_arity) && (exists|
            p2: Predicate,
            env2: Seq<Variable>,
        |
            #[trigger] domain_has_atom(d, p2, env2) && p2.name@ == a.symbol@
                && p2.variables@.len() == a.found_arity && p2.position == a.position),
        Err(SemanticErrorType::InconsistentPredicateArgType(e)) => stage_actions_distinct(d)
            && d.types is Some && (exists|p2: Predicate, env2: Seq<Variable>|
            #[trigger] domain_has_atom(d, p2, env2) && arg_type_defect(
                d.predicates@,
                spec_ts(d.types),
                env2,
                p2,
                e,
            )),
        Err(SemanticErrorType::DuplicateMethodDeclaration(e)) => stage_actions_ok(d)
            && reports_first_dup(
            method_names(d.methods@),
            d.methods@.map_values(|m: Method| m.position.line),
            e,
        ),
        Err(SemanticErrorType::UndefinedTask(nm)) => stage_methods_distinct(d) && task_undeclared(
            d,
            nm@,
        ) && (exists|m: int|
            0 <= m < d.methods@.len() && (#[trigger] d.methods@[m]).task_name@ == nm@),
        Err(SemanticErrorType::InconsistentTaskArity(a)) => stage_methods_distinct(d)
            && a.expected_arity != a.found_arity && (exists|t: int|
            0 <= t < d.compound_tasks@.len() && (#[trigger] d.compound_tasks@[t]).name@
                == a.symbol@ && d.compound_tasks@[t].parameters@.len() == a.expected_arity) && (
        exists|m: int|
            0 <= m < d.methods@.len() && (#[trigger] d.methods@[m]).task_name@ == a.symbol@
                && d.methods@[m].task_terms@.len() == a.found_arity && a.position
                == d.methods@[m].position),
        Err(SemanticErrorType::InconsistentTaskArgType(e)) => stage_methods_distinct(d) && d.types
            is Some && (exists|m: int|
            0 <= m < d.methods@.len() && #[trigger] task_arg_defect(d, m, e)),
        Err(SemanticErrorType::UndefinedSubtask(nm)) => stage_methods_distinct(d)
            && !crate::tdg::ast_has_symbol(d, nm@) && (exists|m: int, k: int|
            0 <= m < d.methods@.len() && 0 <= k < d.methods@[m].tn.subtasks@.len() && (
            #[trigger] d.methods@[m].tn.subtasks@[k]).task_symbol@ == nm@),
        Err(SemanticErrorType::CyclicOrderingDeclaration(nm)) => stage_methods_distinct(d) && (
        exists|m: int|
            0 <= m < d.methods@.len() && ((#[trigger] d.methods@[m]).tn.orderings
                matches TaskOrdering::Partial(pairs) && on_order_cycle(pairs@, nm@))),
        Err(_) => false,
    })
}

/// `e` reports the first repetition in declaration order: `j` is the
/// earliest position repeating an earlier name, `i` that name's first
/// occurrence, and the error carries the symbol with both lines.
pub open spec fn reports_first_dup(
    names: Seq<Seq<char>>,
    lines: Seq<usize>,
    e: DuplicateError,
) -> bool {
    exists|i: int, j: int|
        #![trigger names[i], names[j]]
        {
            &&& 0 <= i < j < names.len()
            &&& names[i] == names[j]
            &&& e.symbol@ == names[j]
            &&& e.first_pos.line == lines[i]
            &&& e.second_pos.line == lines[j]
            &&& (forall|i2: int, j2: int| 0 <= i2 < j2 < j ==> names[i2] != names[j2])
            &&& (forall|i2: int| 0 <= i2 < i ==> names[i2] != names[j])
        }
}

/// `rq` is the first requirement flag repeated in declaration order.
pub open spec fn reports_first_dup_req(reqs: Seq<RequirementType>, rq: RequirementType) -> bool {
    exists|i: int, j: int|
        #![trigger reqs[i], reqs[j]]
        {
            &&& 0 <= i < j < reqs.len()
            &&& reqs[i] == reqs[j]
            &&& rq == reqs[j]
            &&& (forall|i2: int, j2: int| 0 <= i2 < j2 < j ==> reqs[i2] != reqs[j2])
        }
}

/// Scans name/line pairs for the first repeated name; `None` means all
/// names are distinct.
fn first_duplicate(names: &Vec<String>, lines: &Vec<usize>) -> (r: Option<DuplicateError>)
    requires
        names@.len() == lines@.len(),
    ensures
        match r {
            None => all_distinct(names@.map_values(|s: String| s@)),
            Some(e) => reports_first_dup(names@.map_values(|s: String| s@), lines@, e),
        },
{
    let n = names.len();
    let ghost vnames = names@.map_values(|s: String| s@);
    let mut j: usize = 1;
    while j < n
        invariant
            n == names@.len(),
            names@.len() == lines@.len(),
            vnames == names@.map_values(|s: String| s@),
            1 <= j,
            forall|i2: int, j2: int| 0 <= i2 < j2 < j ==> vnames[i2] != vnames[j2],
        decreases n - j,
    {
        let mut i: usize = 0;
        while i < j
            invariant
                n == names@.len(),
                names@.len() == lines@.len(),
                vnames == names@.map_values(|s: String| s@),
                j < n,
                i <= j,
                forall|i2: int, j2: int| 0 <= i2 < j2 < j ==> vnames[i2] != vnames[j2],
                forall|i2: int| 0 <= i2 < i ==> vnames[i2] != vnames[j as int],
            decreases j - i,
        {
            if names[i] == names[j] {
                proof {
                    assert(vnames[i as int] == vnames[j as int]);
                }
                return Some(
                    DuplicateError {
                        symbol: names[j].clone(),
                        first_pos: TokenPosition { line: lines[i] },
                        second_pos: TokenPosition { line: lines[j] },
                    },
                );
            }
            i += 1;
        }
        j += 1;
    }
    None
}

/// Scans requirement flags for the first repeated one.
fn first_duplicate_requirement(reqs: &Vec<RequirementType>) -> (r: Option<RequirementType>)
    ensures
        match r {
            None => forall|i: int, j: int| 0 <= i < j < reqs@.len() ==> reqs@[i] != reqs@[j],
            Some(rq) => reports_first_dup_req(reqs@, rq),
        },
{
    let n = reqs.len();
    let mut j: usize = 1;
    while j < n
        invariant
            n == reqs@.len(),
            1 <= j,
            forall|i2: int, j2: int| 0 <= i2 < j2 < j ==> reqs@[i2] != reqs@[j2],
        decreases n - j,
    {
        let mut i: usize = 0;
        while i < j
            invariant
                n == reqs@.len(),
                j < n,
                i <= j,
                forall|i2: int, j2: int| 0 <= i2 < j2 < j ==> reqs@[i2] != reqs@[j2],
                forall|i2: int| 0 <= i2 < i ==> reqs@[i2] != reqs@[j as int],
            decreases j - i,
        {
            if reqs[i] == reqs[j] {
                return Some(reqs[j]);
            }
            i += 1;
        }
        j += 1;
    }
    None
}

/// Scans a name table, as the type graph builder grows it.
fn find_in_names(names: &Vec<String>, nm: &String) -> (r: Option<usize>)
    ensures
        match r {
            Some(i) => i < names@.len() && names@[i as int]@ == nm@,
            None => forall|k: int| 0 <= k < names@.len() ==> names@[k]@ != nm@,
        },
{
    let n = names.len();
    let mut i: usize = 0;
    while i < n
        invariant
            n == names@.len(),
            i <= n,
            forall|k: int| 0 <= k < i ==> names@[k]@ != nm@,
        decreases n - i,
    {
        if names[i] == *nm {
            return Some(i);
        }
        i += 1;
    }
    None
}

/// `nm` is a type name the `:types` section knows: declared, or
/// referenced as some declaration's parent.
pub open spec fn type_known(ts: Seq<Variable>, nm: Seq<char>) -> bool {
    exists|i: int|
        0 <= i < ts.len() && ((#[trigger] ts[i]).name@ == nm || (ts[i].var_type is Some
            && ts[i].var_type->0@ == nm))
}

/// One declaration names `child` with `parent` as its parent type.
pub open spec fn decl_parent_link(ts: Seq<Variable>, child: Seq<char>, parent: Seq<char>) -> bool {
    exists|i: int|
        0 <= i < ts.len() && (#[trigger] ts[i]).name@ == child && ts[i].var_type is Some
            && ts[i].var_type->0@ == parent
}

/// `c` is a cycle of type names: each one declares the next as its
/// parent, wrapping around.
pub open spec fn type_cycle(ts: Seq<Variable>, c: Seq<Seq<char>>) -> bool {
    c.len() > 0 && forall|k: int|
        0 <= k < c.len() ==> decl_parent_link(ts, #[trigger] c[k], c[(k + 1) % (c.len() as int)])
}

/// Some chain of parent declarations closes on itself.
pub open spec fn has_type_cycle(ts: Seq<Variable>) -> bool {
    exists|c: Seq<Seq<char>>| type_cycle(ts, c)
}

/// `nm` lies on some cycle of parent declarations.
pub open spec fn on_type_cycle(ts: Seq<Variable>, nm: Seq<char>) -> bool {
    exists|c: Seq<Seq<char>>| type_cycle(ts, c) && c.contains(nm)
}

/// `nm` occurs in the name table.
pub open spec fn names_has(names: Seq<String>, nm: Seq<char>) -> bool {
    exists|u: int| 0 <= u < names.len() && #[trigger] names[u]@ == nm
}

/// Builds the child-to-parent type graph of a `:types` section: one
/// node per type name mentioned (declared or as a parent), one edge per
/// declared parent link, and nothing else.
#[verifier::rlimit(60)]
fn build_type_graph(types: &Vec<Variable>) -> (r: (Vec<String>, Digraph))
    ensures
        r.1.wf(),
        r.1.node_count() == r.0@.len(),
        forall|i: int, j: int| 0 <= i < j < r.0@.len() ==> r.0@[i]@ != r.0@[j]@,
        forall|u: int| 0 <= u < r.0@.len() ==> type_known(types@, (#[trigger] r.0@[u])@),
        forall|i: int| 0 <= i < types@.len() ==> names_has(r.0@, (#[trigger] types@[i]).name@),
        forall|i: int|
            0 <= i < types@.len() && (#[trigger] types@[i]).var_type is Some ==> names_has(
                r.0@,
                types@[i].var_type->0@,
            ),
        forall|u: usize, v: usize|
            #[trigger] r.1.has_edge(u, v) ==> v < r.0@.len() && decl_parent_link(
                types@,
                r.0@[u as int]@,
                r.0@[v as int]@,
            ),
        forall|u: usize, v: usize|
            u < r.0@.len() && v < r.0@.len() && decl_parent_link(
                types@,
                r.0@[u as int]@,
                r.0@[v as int]@,
            ) ==> #[trigger] r.1.has_edge(u, v),
{
    let n_types = types.len();
    let mut names: Vec<String> = Vec::new();
    let mut pairs: Vec<(usize, usize)> = Vec::new();
    let mut i: usize = 0;
    while i < n_types
        invariant
            n_types == types@.len(),
            i <= n_types,
            forall|k1: int, k2: int| 0 <= k1 < k2 < names@.len() ==> names@[k1]@ != names@[k2]@,
            forall|u2: int| 0 <= u2 < names@.len() ==> type_known(types@, (#[trigger] names@[u2])@),
            forall|k: int|
                0 <= k < pairs@.len() ==> (#[trigger] pairs@[k]).0 < names@.len() && pairs@[k].1
                    < names@.len(),
            forall|k: int|
                0 <= k < pairs@.len() ==> decl_parent_link(
                    types@,
                    names@[(#[trigger] pairs@[k]).0 as int]@,
                    names@[pairs@[k].1 as int]@,
                ),
            forall|i2: int| 0 <= i2 < i ==> names_has(names@, (#[trigger] types@[i2]).name@),
            forall|i2: int|
                0 <= i2 < i && (#[trigger] types@[i2]).var_type is Some ==> names_has(
                    names@,
                    types@[i2].var_type->0@,
                ),
            forall|i2: int|
                0 <= i2 < i && (#[trigger] types@[i2]).var_type is Some ==> exists|k: int|
                    0 <= k < pairs@.len() && names@[(#[trigger] pairs@[k]).0 as int]@
                        == types@[i2].name@ && names@[pairs@[k].1 as int]@ == types@[i2].var_type->0@,
        decreases n_types - i,
    {
        let ghost names_before = names@;
        let ghost pairs_before = pairs@;
        let u: usize = match find_in_names(&names, &types[i].name) {
            Some(u) => u,
            None => {
                let u = names.len();
                names.push(types[i].name.clone());
                u
            },
        };
        proof {
            assert(names@[u as int]@ == types@[i as int].name@);
            assert forall|u2: int| 0 <= u2 < names@.len() implies type_known(
                types@,
                (#[trigger] names@[u2])@,
            ) by {
                if u2 < names_before.len() {
                    assert(names@[u2]@ == names_before[u2]@);
                } else {
                    assert(names@[u2]@ == types@[i as int].name@);
                }
            }
            assert forall|k1: int, k2: int|
                0 <= k1 < k2 < names@.len() implies names@[k1]@ != names@[k2]@ by {
                if k2 < names_before.len() {
                    assert(names@[k1]@ == names_before[k1]@ && names@[k2]@ == names_before[k2]@);
                } else if names@.len() > names_before.len() {
                    assert(names@[k2]@ == types@[i as int].name@);
                    if k1 < names_before.len() {
                        assert(names@[k1]@ == names_before[k1]@);
                        assert(names_before[k1]@ != types@[i as int].name@);
                    }
                }
            }
        }
        match &types[i].var_type {
            Some(parent) => {
                let ghost names_mid = names@;
                let v: usize = match find_in_names(&names, parent) {
                    Some(v) => v,
                    None => {
                        let v = names.len();
                        names.push(parent.clone());
                        v
                    },
                };
                proof {
                    assert(names@[v as int]@ == types@[i as int].var_type->0@);
                    assert(names@[u as int]@ == types@[i as int].name@);
                    assert forall|u2: int| 0 <= u2 < names@.len() implies type_known(
                        types@,
                        (#[trigger] names@[u2])@,
                    ) by {
                        if u2 < names_mid.len() {
                            assert(names@[u2]@ == names_mid[u2]@);
                        } else {
                            assert(names@[u2]@ == types@[i as int].var_type->0@);
                        }
                    }
                    assert forall|k1: int, k2: int|
                        0 <= k1 < k2 < names@.len() implies names@[k1]@ != names@[k2]@ by {
                        if k2 < names_mid.len() {
                            assert(names@[k1]@ == names_mid[k1]@ && names@[k2]@ == names_mid[k2]@);
                        } else if names@.len() > names_mid.len() {
                            assert(names@[k2]@ == types@[i as int].var_type->0@);
                            if k1 < names_mid.len() {
                                assert(names@[k1]@ == names_mid[k1]@);
                                assert(names_mid[k1]@ != types@[i as int].var_type->0@);
                            }
                        }
                    }
                }
                pairs.push((u, v));
                proof {
                    assert(pairs@[pairs@.len() - 1] == (u, v));
                    assert(decl_parent_link(types@, names@[u as int]@, names@[v as int]@));
                }
            },
            None => {},
        }
        proof {
            assert forall|k: int| 0 <= k < pairs@.len() implies decl_parent_link(
                types@,
                names@[(#[trigger] pairs@[k]).0 as int]@,
                names@[pairs@[k].1 as int]@,
            ) by {
                if k < pairs_before.len() {
                    assert(pairs@[k] == pairs_before[k]);
                    assert(names@[pairs_before[k].0 as int]@ == names_before[pairs_before[k].0 as int]@);
                    assert(names@[pairs_before[k].1 as int]@ == names_before[pairs_before[k].1 as int]@);
                }
            }
            assert forall|i2: int| 0 <= i2 < i + 1 implies names_has(
                names@,
                (#[trigger] types@[i2]).name@,
            ) by {
                if i2 < i {
                    let w = choose|w: int|
                        0 <= w < names_before.len() && #[trigger] names_before[w]@
                            == types@[i2].name@;
                    assert(names@[w]@ == types@[i2].name@);
                } else {
                    assert(names@[u as int]@ == types@[i2].name@);
                }
            }
            assert forall|i2: int|
                0 <= i2 < i + 1 && (#[trigger] types@[i2]).var_type is Some implies names_has(
                names@,
                types@[i2].var_type->0@,
            ) by {
                if i2 < i {
                    let w = choose|w: int|
                        0 <= w < names_before.len() && #[trigger] names_before[w]@
                            == types@[i2].var_type->0@;
                    assert(names@[w]@ == types@[i2].var_type->0@);
                }
            }
            assert forall|i2: int|
                0 <= i2 < i + 1 && (#[trigger] types@[i2]).var_type is Some implies exists|k: int|
                0 <= k < pairs@.len() && names@[(#[trigger] pairs@[k]).0 as int]@
                    == types@[i2].name@ && names@[pairs@[k].1 as int]@ == types@[i2].var_type->0@ by {
                if i2 < i {
                    let k = choose|k: int|
                        0 <= k < pairs_before.len() && names_before[(#[trigger] pairs_before[k]).0 as int]@
                            == types@[i2].name@ && names_before[pairs_before[k].1 as int]@
                            == types@[i2].var_type->0@;
                    assert(pairs@[k] == pairs_before[k]);
                    assert(names@[pairs_before[k].0 as int]@ == types@[i2].name@);
                    assert(names@[pairs_before[k].1 as int]@ == types@[i2].var_type->0@);
                } else {
                    let k = pairs@.len() - 1;
                    assert(names@[(pairs@[k]).0 as int]@ == types@[i2].name@);
                    assert(names@[(pairs@[k]).1 as int]@ == types@[i2].var_type->0@);
                }
            }
        }
        i += 1;
    }
    let n = names.len();
    let mut edges: Vec<Vec<usize>> = Vec::new();
    let mut u: usize = 0;
    while u < n
        invariant
            u <= n,
            edges@.len() == u,
            forall|k: int| 0 <= k < pairs@.len() ==> (#[trigger] pairs@[k]).0 < n && pairs@[k].1
                < n,
            forall|u2: usize, v2: usize|
                u2 < u && #[trigger] edges@[u2 as int]@.contains(v2) ==> pairs@.contains((u2, v2)),
            forall|k: int|
                0 <= k < pairs@.len() && (#[trigger] pairs@[k]).0 < u
                    ==> edges@[pairs@[k].0 as int]@.contains(pairs@[k].1),
        decreases n - u,
    {
        let mut row: Vec<usize> = Vec::new();
        let n_pairs = pairs.len();
        let mut k: usize = 0;
        while k < n_pairs
            invariant
                n_pairs == pairs@.len(),
                k <= n_pairs,
                u < n,
                forall|k2: int|
                    0 <= k2 < pairs@.len() ==> (#[trigger] pairs@[k2]).0 < n && pairs@[k2].1 < n,
                forall|v2: usize| #[trigger] row@.contains(v2) ==> pairs@.contains((u, v2)),
                forall|k2: int|
                    0 <= k2 < k && (#[trigger] pairs@[k2]).0 == u ==> row@.contains(pairs@[k2].1),
            decreases n_pairs - k,
        {
            let ghost row_before = row@;
            let (pu, pv) = pairs[k];
            if pu == u {
                row.push(pv);
                proof {
                    crate::graph::lemma_push_contains(row_before, pv);
                    assert(pairs@.contains((u, pv))) by {
                        assert(pairs@[k as int] == (u, pv));
                    }
                    assert forall|v2: usize| #[trigger] row@.contains(v2) implies pairs@.contains(
                        (u, v2),
                    ) by {
                        if v2 != pv {
                            assert(row_before.contains(v2));
                        }
                    }
                    assert forall|k2: int|
                        0 <= k2 < k + 1 && (#[trigger] pairs@[k2]).0 == u implies row@.contains(
                        pairs@[k2].1,
                    ) by {
                        if k2 < k {
                            assert(row_before.contains(pairs@[k2].1));
                        } else {
                            assert(row@.contains(pv));
                        }
                    }
                }
            } else {
                proof {
                    assert forall|k2: int|
                        0 <= k2 < k + 1 && (#[trigger] pairs@[k2]).0 == u implies row@.contains(
                        pairs@[k2].1,
                    ) by {
                        assert(k2 < k);
                    }
                }
            }
            k += 1;
        }
        let ghost row_view = row@;
        let ghost edges_before = edges@;
        edges.push(row);
        proof {
            assert(edges@[u as int]@ == row_view);
            assert forall|u2: usize, v2: usize|
                u2 < u + 1 && #[trigger] edges@[u2 as int]@.contains(v2) implies pairs@.contains(
                (u2, v2),
            ) by {
                if u2 == u {
                    assert(row_view.contains(v2));
                } else {
                    assert(edges@[u2 as int]@ == edges_before[u2 as int]@);
                    assert(edges_before[u2 as int]@.contains(v2));
                }
            }
            assert forall|k2: int|
                0 <= k2 < pairs@.len() && (#[trigger] pairs@[k2]).0 < u + 1
                    implies edges@[pairs@[k2].0 as int]@.contains(pairs@[k2].1) by {
                if pairs@[k2].0 == u {
                    assert(row_view.contains(pairs@[k2].1));
                    assert(edges@[u as int]@.contains(pairs@[k2].1));
                } else {
                    assert(edges_before[pairs@[k2].0 as int]@.contains(pairs@[k2].1));
                    assert(edges@[pairs@[k2].0 as int]@ == edges_before[pairs@[k2].0 as int]@);
                }
            }
        }
        u += 1;
    }
    let g = Digraph { edges };
    proof {
        assert(g.wf()) by {
            assert forall|uu: int, jj: int|
                0 <= uu < g.edges@.len() && 0 <= jj < g.edges@[uu]@.len() implies (
            g.edges@[uu]@[jj]) < g.edges@.len() by {
                assert(g.edges@[uu]@.contains(g.edges@[uu]@[jj]));
                assert(pairs@.contains((uu as usize, g.edges@[uu]@[jj])));
                let k = choose|k: int|
                    0 <= k < pairs@.len() && pairs@[k] == (uu as usize, g.edges@[uu]@[jj]);
            }
        }
        assert forall|uu: usize, vv: usize| #[trigger] g.has_edge(uu, vv) implies vv
            < names@.len() && decl_parent_link(types@, names@[uu as int]@, names@[vv as int]@) by {
            assert(g.edges@[uu as int]@.contains(vv));
            assert(pairs@.contains((uu, vv)));
            let k = choose|k: int| 0 <= k < pairs@.len() && pairs@[k] == (uu, vv);
            assert(pairs@[k].0 == uu && pairs@[k].1 == vv);
        }
        assert forall|uu: usize, vv: usize|
            uu < names@.len() && vv < names@.len() && decl_parent_link(
                types@,
                names@[uu as int]@,
                names@[vv as int]@,
            ) implies #[trigger] g.has_edge(uu, vv) by {
            let i2 = choose|i2: int|
                0 <= i2 < types@.len() && (#[trigger] types@[i2]).name@ == names@[uu as int]@
                    && types@[i2].var_type is Some && types@[i2].var_type->0@
                    == names@[vv as int]@;
            let k = choose|k: int|
                0 <= k < pairs@.len() && names@[(#[trigger] pairs@[k]).0 as int]@
                    == types@[i2].name@ && names@[pairs@[k].1 as int]@ == types@[i2].var_type->0@;
            assert(pairs@[k].0 == uu) by {
                if pairs@[k].0 != uu {
                    if (pairs@[k].0 as int) < uu as int {
                        assert(names@[pairs@[k].0 as int]@ != names@[uu as int]@);
                    } else {
                        assert(names@[uu as int]@ != names@[pairs@[k].0 as int]@);
                    }
                }
            }
            assert(pairs@[k].1 == vv) by {
                if pairs@[k].1 != vv {
                    if (pairs@[k].1 as int) < vv as int {
                        assert(names@[pairs@[k].1 as int]@ != names@[vv as int]@);
                    } else {
                        assert(names@[vv as int]@ != names@[pairs@[k].1 as int]@);
                    }
                }
            }
            assert(edges@[uu as int]@.contains(vv));
        }
    }
    (names, g)
}

/// The node handle of `nm` in the name table.
spec fn name_index(names: Seq<String>, nm: Seq<char>) -> int {
    choose|u: int| 0 <= u < names.len() && #[trigger] names[u]@ == nm
}

/// A cycle in the type graph names a cycle of parent declarations.
proof fn lemma_graph_cycle_gives_type_cycle(
    ts: Seq<Variable>,
    names: Seq<String>,
    g: Digraph,
    c: Seq<usize>,
)
    requires
        g.is_cycle(c),
        g.node_count() == names.len(),
        forall|u: usize, v: usize|
            #[trigger] g.has_edge(u, v) ==> v < names.len() && decl_parent_link(
                ts,
                names[u as int]@,
                names[v as int]@,
            ),
    ensures
        has_type_cycle(ts),
        forall|v: usize| c.contains(v) ==> on_type_cycle(ts, names[v as int]@),
{
    let cn = c.map_values(|u: usize| names[u as int]@);
    assert(cn.len() == c.len());
    assert forall|k: int| 0 <= k < cn.len() implies decl_parent_link(
        ts,
        #[trigger] cn[k],
        cn[(k + 1) % (cn.len() as int)],
    ) by {
        assert(g.has_edge(c[k], c[(k + 1) % (c.len() as int)]));
        assert(cn[k] == names[c[k] as int]@);
        assert(cn[(k + 1) % (cn.len() as int)] == names[c[(k + 1) % (c.len() as int)] as int]@);
    }
    assert(type_cycle(ts, cn));
    assert forall|v: usize| c.contains(v) implies on_type_cycle(ts, names[v as int]@) by {
        let k = choose|k: int| 0 <= k < c.len() && c[k] == v;
        assert(cn[k] == names[v as int]@);
        assert(cn.contains(names[v as int]@));
    }
}

/// The name at any cycle position has a node in the table.
proof fn lemma_cycle_name_has_node(
    ts: Seq<Variable>,
    names: Seq<String>,
    c: Seq<Seq<char>>,
    k: int,
)
    requires
        type_cycle(ts, c),
        0 <= k < c.len(),
        forall|i: int| 0 <= i < ts.len() ==> names_has(names, (#[trigger] ts[i]).name@),
    ensures
        0 <= name_index(names, c[k]) < names.len(),
        names[name_index(names, c[k])]@ == c[k],
{
    let len = c.len() as int;
    let nxt = c[(k + 1) % len];
    assert(decl_parent_link(ts, c[k], nxt));
    let i = choose|i: int|
        0 <= i < ts.len() && (#[trigger] ts[i]).name@ == c[k] && ts[i].var_type is Some
            && ts[i].var_type->0@ == nxt;
    assert(names_has(names, ts[i].name@));
    let w = choose|w: int| 0 <= w < names.len() && #[trigger] names[w]@ == c[k];
    assert(names[name_index(names, c[k])]@ == c[k]);
}

#[verifier::rlimit(100)]
proof fn lemma_type_cycle_gives_not_acyclic(
    ts: Seq<Variable>,
    names: Seq<String>,
    g: Digraph,
    c: Seq<Seq<char>>,
)
    requires
        type_cycle(ts, c),
        g.wf(),
        g.node_count() == names.len(),
        names.len() <= usize::MAX,
        forall|i: int| 0 <= i < ts.len() ==> names_has(names, (#[trigger] ts[i]).name@),
        forall|u: usize, v: usize|
            u < names.len() && v < names.len() && decl_parent_link(
                ts,
                names[u as int]@,
                names[v as int]@,
            ) ==> #[trigger] g.has_edge(u, v),
    ensures
        !g.acyclic(),
{
    let len = c.len() as int;
    let cidx = Seq::new(c.len(), |k: int| name_index(names, c[k]) as usize);
    assert forall|k: int| 0 <= k < cidx.len() implies g.has_edge(
        #[trigger] cidx[k],
        cidx[(k + 1) % (cidx.len() as int)],
    ) by {
        let k2 = (k + 1) % len;
        lemma_cycle_name_has_node(ts, names, c, k);
        lemma_cycle_name_has_node(ts, names, c, k2);
        assert(decl_parent_link(ts, c[k], c[k2]));
        assert(0 <= name_index(names, c[k]) < names.len());
        assert(0 <= name_index(names, c[k2]) < names.len());
        assert(cidx[k] == name_index(names, c[k]) as usize);
        assert(cidx[k2] == name_index(names, c[k2]) as usize);
        assert(cidx[k] as int == name_index(names, c[k]));
        assert(cidx[k2] as int == name_index(names, c[k2]));
        assert(names[cidx[k] as int]@ == c[k]);
        assert(names[cidx[k2] as int]@ == c[k2]);
        assert(decl_parent_link(ts, names[cidx[k] as int]@, names[cidx[k2] as int]@));
    }
    assert(g.is_cycle(cidx));
    g.lemma_cycle_not_acyclic(cidx);
}

/// `s` (a set of type names) is closed under following declared parent
/// links.
pub open spec fn parent_closed(ts: Seq<Variable>, s: Set<Seq<char>>) -> bool {
    forall|a: Seq<char>, b: Seq<char>|
        s.contains(a) && #[trigger] decl_parent_link(ts, a, b) ==> s.contains(b)
}

/// `b` is an ancestor of `a` in the declared hierarchy: it lies in
/// every parent-closed name set holding `a` (zero or more parent steps).
pub open spec fn is_ancestor(ts: Seq<Variable>, a: Seq<char>, b: Seq<char>) -> bool {
    forall|s: Set<Seq<char>>| s.contains(a) && #[trigger] parent_closed(ts, s) ==> s.contains(b)
}

/// The view of an optional type name.
pub open spec fn opt_name_view(o: Option<String>) -> Option<Seq<char>> {
    match o {
        Some(t) => Some(t@),
        None => None,
    }
}

/// A found/expected type pair is compatible: both unconstrained, or
/// equal, or the expected type an ancestor of the found one.  One side
/// typed and the other not is a mismatch.
pub open spec fn compat(
    ts: Seq<Variable>,
    found: Option<Seq<char>>,
    expected: Option<Seq<char>>,
) -> bool {
    match (found, expected) {
        (None, None) => true,
        (Some(f), Some(e)) => f == e || is_ancestor(ts, f, e),
        _ => false,
    }
}

/// The name table and graph a `:types` section builds stand for the
/// declarations: distinct names covering exactly the known type names,
/// and edges matching the declared parent links.
pub open spec fn table_for(ts: Seq<Variable>, names: Seq<String>, g: Digraph) -> bool {
    &&& g.wf()
    &&& g.node_count() == names.len()
    &&& names.len() <= usize::MAX
    &&& forall|i: int, j: int| 0 <= i < j < names.len() ==> names[i]@ != names[j]@
    &&& forall|u: int| 0 <= u < names.len() ==> type_known(ts, (#[trigger] names[u])@)
    &&& forall|i: int| 0 <= i < ts.len() ==> names_has(names, (#[trigger] ts[i]).name@)
    &&& forall|i: int|
        0 <= i < ts.len() && (#[trigger] ts[i]).var_type is Some ==> names_has(
            names,
            ts[i].var_type->0@,
        )
    &&& forall|u: usize, v: usize|
        #[trigger] g.has_edge(u, v) ==> v < names.len() && decl_parent_link(
            ts,
            names[u as int]@,
            names[v as int]@,
        )
    &&& forall|u: usize, v: usize|
        u < names.len() && v < names.len() && decl_parent_link(
            ts,
            names[u as int]@,
            names[v as int]@,
        ) ==> #[trigger] g.has_edge(u, v)
}

/// Graph reachability between two nodes coincides with ancestry of
/// their names in the declared hierarchy.
#[verifier::rlimit(100)]
proof fn lemma_reaches_is_ancestor(
    ts: Seq<Variable>,
    names: Seq<String>,
    g: Digraph,
    fi: usize,
    ei: usize,
)
    requires
        table_for(ts, names, g),
        fi < names.len(),
        ei < names.len(),
    ensures
        g.reaches(fi, ei) == is_ancestor(ts, names[fi as int]@, names[ei as int]@),
{
    let n = names.len();
    if g.reaches(fi, ei) {
        assert forall|s: Set<Seq<char>>|
            s.contains(names[fi as int]@) && #[trigger] parent_closed(ts, s) implies s.contains(
            names[ei as int]@,
        ) by {
            let m = Set::new(|u: usize| u < n && s.contains(names[u as int]@));
            assert(m.contains(fi));
            assert(g.closed(m)) by {
                assert forall|u: usize, v: usize|
                    m.contains(u) && #[trigger] g.has_edge(u, v) implies m.contains(v) by {
                    assert(decl_parent_link(ts, names[u as int]@, names[v as int]@));
                    assert(s.contains(names[v as int]@));
                }
            }
            assert(m.contains(ei));
        }
    }
    if is_ancestor(ts, names[fi as int]@, names[ei as int]@) {
        assert forall|m: Set<usize>| m.contains(fi) && #[trigger] g.closed(m) implies m.contains(
            ei,
        ) by {
            let s = Set::new(
                |nm: Seq<char>|
                    exists|u: int| 0 <= u < n && (#[trigger] names[u])@ == nm && m.contains(
                        u as usize,
                    ),
            );
            assert(s.contains(names[fi as int]@)) by {
                assert(names[fi as int]@ == names[fi as int]@ && m.contains(fi));
            }
            assert(parent_closed(ts, s)) by {
                assert forall|a: Seq<char>, b: Seq<char>|
                    s.contains(a) && #[trigger] decl_parent_link(ts, a, b) implies s.contains(
                    b,
                ) by {
                    let u = choose|u: int|
                        0 <= u < n && (#[trigger] names[u])@ == a && m.contains(u as usize);
                    // b is a declared parent, so it has a node
                    let i = choose|i: int|
                        0 <= i < ts.len() && (#[trigger] ts[i]).name@ == a && ts[i].var_type
                            is Some && ts[i].var_type->0@ == b;
                    assert(names_has(names, ts[i].var_type->0@));
                    let v = choose|v: int| 0 <= v < names.len() && (#[trigger] names[v])@ == b;
                    assert(decl_parent_link(ts, names[u]@, names[v]@));
                    assert(g.has_edge(u as usize, v as usize));
                    assert(m.contains(v as usize));
                    assert((names[v])@ == b && m.contains(v as usize));
                }
            }
            assert(s.contains(names[ei as int]@));
            let u2 = choose|u2: int|
                0 <= u2 < n && (#[trigger] names[u2])@ == names[ei as int]@ && m.contains(
                    u2 as usize,
                );
            assert(u2 == ei as int) by {
                if u2 < ei as int {
                    assert(names[u2]@ != names[ei as int]@);
                } else if u2 > ei as int {
                    assert(names[ei as int]@ != names[u2]@);
                }
            }
        }
    }
}

/// Whether a used type is compatible with an expected one, under the
/// child-to-parent hierarchy: equal, or the expected type an ancestor
/// of the found one.
fn type_compatible(
    names: &Vec<String>,
    g: &Digraph,
    found: &Option<String>,
    expected: &Option<String>,
    ts: Ghost<Seq<Variable>>,
) -> (r: bool)
    requires
        table_for(ts@, names@, *g),
    ensures
        r == compat(ts@, opt_name_view(*found), opt_name_view(*expected)),
{
    match (found, expected) {
        (None, None) => true,
        (None, Some(_)) => false,
        (Some(_), None) => false,
        (Some(f), Some(e)) => {
            if *f == *e {
                true
            } else {
                match (find_in_names(names, f), find_in_names(names, e)) {
                    (Some(fi), Some(ei)) => {
                        let r = g.reaches_query(fi, ei);
                        proof {
                            lemma_reaches_is_ancestor(ts@, names@, *g, fi, ei);
                        }
                        r
                    },
                    (None, _) => {
                        proof {
                            lemma_unknown_type_no_ancestor(ts@, names@, f@, e@);
                        }
                        false
                    },
                    (_, None) => {
                        proof {
                            lemma_unknown_target_no_ancestor(ts@, names@, f@, e@);
                        }
                        false
                    },
                }
            }
        },
    }
}

/// A name without a node has no declared parent links, so it is an
/// ancestor-source of nothing but itself.
proof fn lemma_unknown_type_no_ancestor(
    ts: Seq<Variable>,
    names: Seq<String>,
    f: Seq<char>,
    e: Seq<char>,
)
    requires
        forall|i: int| 0 <= i < ts.len() ==> names_has(names, (#[trigger] ts[i]).name@),
        forall|k: int| 0 <= k < names.len() ==> (#[trigger] names[k])@ != f,
        f != e,
    ensures
        !is_ancestor(ts, f, e),
{
    let s = Set::new(|nm: Seq<char>| nm == f);
    assert(s.contains(f));
    assert(parent_closed(ts, s)) by {
        assert forall|a: Seq<char>, b: Seq<char>|
            s.contains(a) && #[trigger] decl_parent_link(ts, a, b) implies s.contains(b) by {
            let i = choose|i: int|
                0 <= i < ts.len() && (#[trigger] ts[i]).name@ == a && ts[i].var_type is Some
                    && ts[i].var_type->0@ == b;
            assert(names_has(names, ts[i].name@));
            let k = choose|k: int| 0 <= k < names.len() && (#[trigger] names[k])@ == a;
            assert(false);
        }
    }
    assert(!s.contains(e));
}

/// A name without a node is a declared parent of nothing, so nothing
/// distinct from it has it as an ancestor.
proof fn lemma_unknown_target_no_ancestor(
    ts: Seq<Variable>,
    names: Seq<String>,
    f: Seq<char>,
    e: Seq<char>,
)
    requires
        forall|i: int|
            0 <= i < ts.len() && (#[trigger] ts[i]).var_type is Some ==> names_has(
                names,
                ts[i].var_type->0@,
            ),
        forall|i: int| 0 <= i < ts.len() ==> names_has(names, (#[trigger] ts[i]).name@),
        forall|k: int| 0 <= k < names.len() ==> (#[trigger] names[k])@ != e,
        f != e,
    ensures
        !is_ancestor(ts, f, e),
{
    let s = Set::new(|nm: Seq<char>| nm != e);
    assert(s.contains(f));
    assert(parent_closed(ts, s)) by {
        assert forall|a: Seq<char>, b: Seq<char>|
            s.contains(a) && #[trigger] decl_parent_link(ts, a, b) implies s.contains(b) by {
            if b == e {
                let i = choose|i: int|
                    0 <= i < ts.len() && (#[trigger] ts[i]).name@ == a && ts[i].var_type is Some
                        && ts[i].var_type->0@ == b;
                assert(names_has(names, ts[i].var_type->0@));
                let k = choose|k: int| 0 <= k < names.len() && (#[trigger] names[k])@ == b;
                assert(false);
            }
        }
    }
    assert(!s.contains(e));
}

/// The effective type of `nm` under an environment of declared
/// parameters: the innermost (latest) binding wins; an unbound or
/// untyped name is unconstrained.
pub open spec fn env_type(env: Seq<Variable>, nm: Seq<char>) -> Option<Seq<char>>
    decreases env.len(),
{
    if env.len() == 0 {
        None
    } else if env.last().name@ == nm {
        match env.last().var_type {
            Some(t) => Some(t@),
            None => None,
        }
    } else {
        env_type(env.drop_last(), nm)
    }
}

/// Every typed entry of `vs` names a known type.
pub open spec fn var_types_known(ts: Seq<Variable>, vs: Seq<Variable>) -> bool {
    forall|k: int|
        0 <= k < vs.len() && (#[trigger] vs[k]).var_type is Some ==> type_known(
            ts,
            vs[k].var_type->0@,
        )
}

/// Looks a variable up in an environment of declared parameters, the
/// later (inner) declarations taking precedence; yields its effective
/// type.
fn lookup_var(env: &Vec<Variable>, nm: &String) -> (r: Option<String>)
    ensures
        opt_name_view(r) == env_type(env@, nm@),
{
    let n = env.len();
    proof {
        assert(env@.take(n as int) =~= env@);
    }
    let mut i: usize = n;
    while i > 0
        invariant
            n == env@.len(),
            i <= n,
            env_type(env@, nm@) == env_type(env@.take(i as int), nm@),
        decreases i,
    {
        i -= 1;
        let ghost pre = env@.take(i as int + 1);
        proof {
            assert(pre.last() == env@[i as int]);
            assert(pre.drop_last() =~= env@.take(i as int));
        }
        if env[i].name == *nm {
            proof {
                assert(pre.last().name@ == nm@);
            }
            return match &env[i].var_type {
                Some(t) => Some(t.clone()),
                None => None,
            };
        }
        proof {
            assert(pre.last().name@ != nm@);
        }
    }
    proof {
        assert(env@.take(0) =~= Seq::<Variable>::empty());
    }
    None
}

/// Finds a predicate declaration by name.
fn find_predicate<'a>(preds: &'a Vec<Predicate>, nm: &String) -> (r: Option<&'a Predicate>)
    ensures
        match r {
            Some(decl) => exists|t: int|
                0 <= t < preds@.len() && (#[trigger] preds@[t]).name@ == nm@ && preds@[t] == *decl,
            None => forall|t: int| 0 <= t < preds@.len() ==> (#[trigger] preds@[t]).name@ != nm@,
        },
{
    let n = preds.len();
    let mut i: usize = 0;
    while i < n
        invariant
            n == preds@.len(),
            i <= n,
            forall|t: int| 0 <= t < i ==> (#[trigger] preds@[t]).name@ != nm@,
        decreases n - i,
    {
        if preds[i].name == *nm {
            proof {
                assert(preds@[i as int].name@ == nm@);
            }
            return Some(&preds[i]);
        }
        i += 1;
    }
    None
}

/// The built type table stands for the domain's `:types` section: both
/// absent, or the table's names and graph representing the declarations.
pub open spec fn tt_matches(tt: Option<(Vec<String>, Digraph)>, types: Option<Vec<Variable>>) -> bool {
    match (tt, types) {
        (None, None) => true,
        (Some(p), Some(ts)) => table_for(ts@, p.0@, p.1),
        _ => false,
    }
}

/// The type declarations of a domain, empty when it has none.
pub open spec fn spec_ts(types: Option<Vec<Variable>>) -> Seq<Variable> {
    match types {
        Some(ts) => ts@,
        None => Seq::empty(),
    }
}

/// Argument `k` of an atom fits parameter `k` of the declaration.
pub open spec fn atom_args_ok(
    ts: Seq<Variable>,
    env: Seq<Variable>,
    decl_vars: Seq<Variable>,
    args: Seq<Variable>,
) -> bool {
    forall|k: int|
        0 <= k < args.len() ==> compat(
            ts,
            env_type(env, (#[trigger] args[k]).name@),
            opt_name_view(decl_vars[k].var_type),
        )
}

/// The atom invokes a declared predicate with its declared arity and,
/// under typing, arguments whose effective types fit the parameters.
pub open spec fn atom_ok(
    preds: Seq<Predicate>,
    typed: bool,
    ts: Seq<Variable>,
    env: Seq<Variable>,
    p: Predicate,
) -> bool {
    exists|t: int|
        0 <= t < preds.len() && (#[trigger] preds[t]).name@ == p.name@ && preds[t].variables@.len()
            == p.variables@.len() && (typed ==> atom_args_ok(ts, env, preds[t].variables@, p.variables@))
}

/// Every atom of the formula is a valid invocation, quantifier binders
/// extending the environment.
pub open spec fn formula_ok(
    preds: Seq<Predicate>,
    typed: bool,
    ts: Seq<Variable>,
    env: Seq<Variable>,
    f: Formula,
) -> bool
    decreases f,
{
    match f {
        Formula::Empty => true,
        Formula::Equals(_, _) => true,
        Formula::Atom(p) => atom_ok(preds, typed, ts, env, p),
        Formula::Not(g) => formula_ok(preds, typed, ts, env, *g),
        Formula::And(fs) => forall|k: int|
            0 <= k < fs@.len() ==> formula_ok(preds, typed, ts, env, *(#[trigger] fs@[k])),
        Formula::Or(fs) => forall|k: int|
            0 <= k < fs@.len() ==> formula_ok(preds, typed, ts, env, *(#[trigger] fs@[k])),
        Formula::Xor(fs) => forall|k: int|
            0 <= k < fs@.len() ==> formula_ok(preds, typed, ts, env, *(#[trigger] fs@[k])),
        Formula::Imply(f1, f2) => formula_ok(preds, typed, ts, env, *f1) && formula_ok(
            preds,
            typed,
            ts,
            env,
            *f2,
        ),
        Formula::ForAll(vs, g) => formula_ok(preds, typed, ts, env + vs@, *g),
        Formula::Exists(vs, g) => formula_ok(preds, typed, ts, env + vs@, *g),
    }
}

/// The formula, evaluated under `env`, holds the atom occurrence `p`,
/// with `env2` (the environment extended by the enclosing quantifiers)
/// in force at its position.
pub open spec fn formula_has_atom(
    f: Formula,
    env: Seq<Variable>,
    p: Predicate,
    env2: Seq<Variable>,
) -> bool
    decreases f,
{
    match f {
        Formula::Empty => false,
        Formula::Equals(_, _) => false,
        Formula::Atom(q) => q == p && env2 == env,
        Formula::Not(g) => formula_has_atom(*g, env, p, env2),
        Formula::And(fs) => exists|k: int|
            0 <= k < fs@.len() && formula_has_atom(*(#[trigger] fs@[k]), env, p, env2),
        Formula::Or(fs) => exists|k: int|
            0 <= k < fs@.len() && formula_has_atom(*(#[trigger] fs@[k]), env, p, env2),
        Formula::Xor(fs) => exists|k: int|
            0 <= k < fs@.len() && formula_has_atom(*(#[trigger] fs@[k]), env, p, env2),
        Formula::Imply(f1, f2) => formula_has_atom(*f1, env, p, env2) || formula_has_atom(
            *f2,
            env,
            p,
            env2,
        ),
        Formula::ForAll(vs, g) => formula_has_atom(*g, env + vs@, p, env2),
        Formula::Exists(vs, g) => formula_has_atom(*g, env + vs@, p, env2),
    }
}

/// The carried type error matches a real argument of atom `p` against
/// its declaration: the named argument exists, its effective type under
/// `env2` is the reported found type, the declared parameter type is
/// the reported expected one, and the pair is incompatible.
pub open spec fn arg_type_defect(
    preds: Seq<Predicate>,
    ts: Seq<Variable>,
    env2: Seq<Variable>,
    p: Predicate,
    e: TypeError,
) -> bool {
    exists|t: int, k: int|
        0 <= t < preds.len() && preds[t].name@ == p.name@ && preds[t].variables@.len()
            == p.variables@.len() && 0 <= k < p.variables@.len() && p.variables@[k].name@
            == e.var_name@ && env_type(env2, e.var_name@) == opt_name_view(e.found)
            && opt_name_view((#[trigger] preds[t].variables@[k]).var_type) == opt_name_view(
            e.expected,
        ) && !compat(ts, opt_name_view(e.found), opt_name_view(e.expected))
}

/// No predicate of `preds` bears the name `nm`.
pub open spec fn pred_undeclared(preds: Seq<Predicate>, nm: Seq<char>) -> bool {
    forall|t: int| 0 <= t < preds.len() ==> (#[trigger] preds[t]).name@ != nm
}

/// Validates every declared parameter type against the known type
/// names; with no `:types` section no typing is enforced.
fn check_type_declarations(
    vars: &Vec<Variable>,
    type_table: &Option<(Vec<String>, Digraph)>,
    ts: Ghost<Seq<Variable>>,
) -> (r: Result<(), SemanticErrorType>)
    requires
        match *type_table {
            Some(p) => table_for(ts@, p.0@, p.1),
            None => true,
        },
    ensures
        *type_table is Some ==> (r is Ok <==> var_types_known(ts@, vars@)),
        *type_table is None ==> r is Ok,
        (match r {
            Err(SemanticErrorType::UndefinedType(t)) => !type_known(ts@, t@) && exists|k: int|
                0 <= k < vars@.len() && (#[trigger] vars@[k]).var_type is Some
                    && vars@[k].var_type->0@ == t@,
            Err(_) => false,
            Ok(_) => true,
        }),
{
    match type_table {
        None => Ok(()),
        Some((names, _g)) => {
            let n = vars.len();
            let mut i: usize = 0;
            while i < n
                invariant
                    *type_table is Some,
                    table_for(ts@, names@, (type_table->0).1),
                    names@ == (type_table->0).0@,
                    n == vars@.len(),
                    i <= n,
                    forall|k: int|
                        0 <= k < i && (#[trigger] vars@[k]).var_type is Some ==> type_known(
                            ts@,
                            vars@[k].var_type->0@,
                        ),
                decreases n - i,
        {
                match &vars[i].var_type {
                    Some(t) => {
                        match find_in_names(names, t) {
                            None => {
                                proof {
                                    // a known type would have a node
                                    if type_known(ts@, t@) {
                                        let i2 = choose|i2: int|
                                            0 <= i2 < ts@.len() && ((#[trigger] ts@[i2]).name@
                                                == t@ || (ts@[i2].var_type is Some
                                                && ts@[i2].var_type->0@ == t@));
                                        if ts@[i2].name@ == t@ {
                                            assert(names_has(names@, ts@[i2].name@));
                                        } else {
                                            assert(names_has(names@, ts@[i2].var_type->0@));
                                        }
                                        let u = choose|u: int|
                                            0 <= u < names@.len() && (#[trigger] names@[u])@ == t@;
                                        assert(false);
                                    }
                                    assert(vars@[i as int].var_type->0@ == t@);
                                }
                                return Err(SemanticErrorType::UndefinedType(t.clone()));
                            },
                            Some(u) => {
                                proof {
                                    assert(type_known(ts@, (names@[u as int])@));
                                }
                            },
                        }
                    },
                    None => {},
                }
                i += 1;
            }
            Ok(())
        },
    }
}

/// Validates one predicate atom occurrence: the predicate must be
/// declared, invoked with its declared arity, and each argument's
/// effective type must fit the parameter's type.
#[verifier::rlimit(60)]
fn check_atom(
    atom: &Predicate,
    env: &Vec<Variable>,
    preds: &Vec<Predicate>,
    type_table: &Option<(Vec<String>, Digraph)>,
    ts: Ghost<Seq<Variable>>,
) -> (r: Result<(), SemanticErrorType>)
    requires
        all_distinct(pred_names(preds@)),
        match *type_table {
            Some(p) => table_for(ts@, p.0@, p.1),
            None => true,
        },
    ensures
        r is Ok <==> atom_ok(preds@, *type_table is Some, ts@, env@, *atom),
        (match r {
            Err(SemanticErrorType::UndefinedPredicate(u)) => u.symbol@ == atom.name@ && u.position
                == atom.position && pred_undeclared(preds@, atom.name@),
            Err(SemanticErrorType::InconsistentPredicateArity(a)) => a.symbol@ == atom.name@
                && a.position == atom.position && a.found_arity == atom.variables@.len()
                && a.expected_arity != a.found_arity && exists|t: int|
                0 <= t < preds@.len() && (#[trigger] preds@[t]).name@ == atom.name@
                    && preds@[t].variables@.len() == a.expected_arity,
            Err(SemanticErrorType::InconsistentPredicateArgType(e)) => *type_table is Some
                && arg_type_defect(preds@, ts@, env@, *atom, e),
            Err(_) => false,
            Ok(_) => true,
        }),
{
    let ghost typed = *type_table is Some;
    let decl = match find_predicate(preds, &atom.name) {
        Some(d) => d,
        None => {
            proof {
                assert(!atom_ok(preds@, typed, ts@, env@, *atom));
            }
            return Err(
                SemanticErrorType::UndefinedPredicate(
                    UndefinedSymbolError { symbol: atom.name.clone(), position: atom.position },
                ),
            );
        },
    };
    let ghost t0 = choose|t: int|
        0 <= t < preds@.len() && (#[trigger] preds@[t]).name@ == atom.name@ && preds@[t] == *decl;
    proof {
        // the declaration found is the only one with this name
        assert forall|t: int|
            0 <= t < preds@.len() && (#[trigger] preds@[t]).name@ == atom.name@ implies t
            == t0 by {
            if t != t0 {
                assert(pred_names(preds@)[t] == pred_names(preds@)[t0]);
            }
        }
    }
    if decl.variables.len() != atom.variables.len() {
        proof {
            assert(!atom_ok(preds@, typed, ts@, env@, *atom)) by {
                if atom_ok(preds@, typed, ts@, env@, *atom) {
                    let t = choose|t: int|
                        0 <= t < preds@.len() && (#[trigger] preds@[t]).name@ == atom.name@
                            && preds@[t].variables@.len() == atom.variables@.len() && (typed
                            ==> atom_args_ok(ts@, env@, preds@[t].variables@, atom.variables@));
                    assert(t == t0);
                }
            }
        }
        return Err(
            SemanticErrorType::InconsistentPredicateArity(
                ArityError {
                    symbol: atom.name.clone(),
                    expected_arity: decl.variables.len(),
                    found_arity: atom.variables.len(),
                    position: atom.position,
                },
            ),
        );
    }
    match type_table {
        None => {
            proof {
                assert(atom_ok(preds@, typed, ts@, env@, *atom)) by {
                    assert(preds@[t0].name@ == atom.name@ && preds@[t0].variables@.len()
                        == atom.variables@.len());
                }
            }
            Ok(())
        },
        Some((names, g)) => {
            let n = atom.variables.len();
            let mut i: usize = 0;
            while i < n
                invariant
                    table_for(ts@, names@, *g),
                    *type_table is Some,
                    typed == *type_table is Some,
                    n == atom.variables@.len(),
                    n == decl.variables@.len(),
                    0 <= t0 < preds@.len(),
                    preds@[t0].name@ == atom.name@,
                    preds@[t0] == *decl,
                    forall|t: int|
                        0 <= t < preds@.len() && (#[trigger] preds@[t]).name@ == atom.name@
                            ==> t == t0,
                    decl.variables@ == preds@[t0].variables@,
                    i <= n,
                    forall|k: int|
                        0 <= k < i ==> compat(
                            ts@,
                            env_type(env@, (#[trigger] atom.variables@[k]).name@),
                            opt_name_view(decl.variables@[k].var_type),
                        ),
                decreases n - i,
            {
                let arg_type: Option<String> = lookup_var(env, &atom.variables[i].name);
                let expected = match &decl.variables[i].var_type {
                    Some(t) => Some(t.clone()),
                    None => None,
                };
                proof {
                    assert(opt_name_view(expected) == opt_name_view(
                        decl.variables@[i as int].var_type,
                    ));
                }
                let trivially_ok = matches!((&arg_type, &expected), (None, None));
                if !trivially_ok {
                    if !type_compatible(names, g, &arg_type, &expected, Ghost(ts@)) {
                        proof {
                            assert(!compat(
                                ts@,
                                env_type(env@, atom.variables@[i as int].name@),
                                opt_name_view(decl.variables@[i as int].var_type),
                            ));
                            assert(opt_name_view((preds@[t0].variables@[i as int]).var_type)
                                == opt_name_view(expected));
                            assert(!atom_ok(preds@, typed, ts@, env@, *atom)) by {
                                if atom_ok(preds@, typed, ts@, env@, *atom) {
                                    let t = choose|t: int|
                                        0 <= t < preds@.len() && (#[trigger] preds@[t]).name@
                                            == atom.name@ && preds@[t].variables@.len()
                                            == atom.variables@.len() && (typed ==> atom_args_ok(
                                            ts@,
                                            env@,
                                            preds@[t].variables@,
                                            atom.variables@,
                                        ));
                                    assert(t == t0);
                                    assert(compat(
                                        ts@,
                                        env_type(
                                            env@,
                                            (#[trigger] atom.variables@[i as int]).name@,
                                        ),
                                        opt_name_view(preds@[t0].variables@[i as int].var_type),
                                    ));
                                }
                            }
                        }
                        return Err(
                            SemanticErrorType::InconsistentPredicateArgType(
                                TypeError {
                                    expected,
                                    found: arg_type,
                                    var_name: atom.variables[i].name.clone(),
                                },
                            ),
                        );
                    }
                }
                proof {
                    if trivially_ok {
                        assert(opt_name_view(arg_type) is None && opt_name_view(
                            expected,
                        ) is None);
                    }
                    assert(compat(
                        ts@,
                        env_type(env@, atom.variables@[i as int].name@),
                        opt_name_view(decl.variables@[i as int].var_type),
                    ));
                }
                i += 1;
            }
            proof {
                assert(atom_args_ok(ts@, env@, preds@[t0].variables@, atom.variables@));
                assert(atom_ok(preds@, typed, ts@, env@, *atom)) by {
                    assert(preds@[t0].name@ == atom.name@ && preds@[t0].variables@.len()
                        == atom.variables@.len());
                }
            }
            Ok(())
        },
    }
}


/// Validates every atom of a formula, extending the environment under
/// quantifiers; exact against `formula_ok`, with every error tied to a
/// real atom occurrence of the formula.
#[verifier::rlimit(100)]
fn check_formula(
    f: &Formula,
    env: &Vec<Variable>,
    preds: &Vec<Predicate>,
    type_table: &Option<(Vec<String>, Digraph)>,
    ts: Ghost<Seq<Variable>>,
) -> (r: Result<(), SemanticErrorType>)
    requires
        all_distinct(pred_names(preds@)),
        match *type_table {
            Some(p) => table_for(ts@, p.0@, p.1),
            None => true,
        },
    ensures
        r is Ok <==> formula_ok(preds@, *type_table is Some, ts@, env@, *f),
        (match r {
            Err(SemanticErrorType::UndefinedPredicate(u)) => pred_undeclared(preds@, u.symbol@)
                && exists|p2: Predicate, env2: Seq<Variable>|
                #[trigger] formula_has_atom(*f, env@, p2, env2) && p2.name@ == u.symbol@
                    && p2.position == u.position,
            Err(SemanticErrorType::InconsistentPredicateArity(a)) => a.expected_arity
                != a.found_arity && (exists|t: int|
                0 <= t < preds@.len() && (#[trigger] preds@[t]).name@ == a.symbol@
                    && preds@[t].variables@.len() == a.expected_arity) && (exists|
                p2: Predicate,
                env2: Seq<Variable>,
            |
                #[trigger] formula_has_atom(*f, env@, p2, env2) && p2.name@ == a.symbol@
                    && p2.variables@.len() == a.found_arity && p2.position == a.position),
            Err(SemanticErrorType::InconsistentPredicateArgType(e)) => *type_table is Some && (
            exists|p2: Predicate, env2: Seq<Variable>|
                #[trigger] formula_has_atom(*f, env@, p2, env2) && arg_type_defect(
                    preds@,
                    ts@,
                    env2,
                    p2,
                    e,
                )),
            Err(_) => false,
            Ok(_) => true,
        }),
    decreases *f,
{
    let ghost typed = *type_table is Some;
    match f {
        Formula::Empty => Ok(()),
        Formula::Equals(_, _) => Ok(()),
        Formula::Atom(p) => {
            let r = check_atom(p, env, preds, type_table, ts);
            proof {
                if r is Err {
                    assert(formula_has_atom(*f, env@, *p, env@));
                }
            }
            r
        },
        Formula::Not(g) => {
            proof {
                assert(decreases_to!(*f => f->Not_0));
            }
            let r = check_formula(g, env, preds, type_table, ts);
            proof {
                if let Err(e) = &r {
                    match e {
                        SemanticErrorType::UndefinedPredicate(u) => {
                            let (p2, env2) = choose|p2: Predicate, env2: Seq<Variable>|
                                #[trigger] formula_has_atom(**g, env@, p2, env2) && p2.name@
                                    == u.symbol@ && p2.position == u.position;
                            assert(formula_has_atom(*f, env@, p2, env2));
                        },
                        SemanticErrorType::InconsistentPredicateArity(a) => {
                            let (p2, env2) = choose|p2: Predicate, env2: Seq<Variable>|
                                #[trigger] formula_has_atom(**g, env@, p2, env2) && p2.name@
                                    == a.symbol@ && p2.variables@.len() == a.found_arity
                                    && p2.position == a.position;
                            assert(formula_has_atom(*f, env@, p2, env2));
                        },
                        SemanticErrorType::InconsistentPredicateArgType(e2) => {
                            let (p2, env2) = choose|p2: Predicate, env2: Seq<Variable>|
                                #[trigger] formula_has_atom(**g, env@, p2, env2)
                                    && arg_type_defect(preds@, ts@, env2, p2, *e2);
                            assert(formula_has_atom(*f, env@, p2, env2));
                        },
                        _ => {},
                    }
                }
            }
            r
        },
        Formula::And(fs) | Formula::Or(fs) | Formula::Xor(fs) => {
            proof {
                match f {
                    Formula::And(_) => {
                        assert(decreases_to!(*f => f->And_0));
                    },
                    Formula::Or(_) => {
                        assert(decreases_to!(*f => f->Or_0));
                    },
                    Formula::Xor(_) => {
                        assert(decreases_to!(*f => f->Xor_0));
                    },
                    _ => {},
                }
            }
            let n = fs.len();
            let mut i: usize = 0;
            while i < n
                invariant
                    all_distinct(pred_names(preds@)),
                    match *type_table {
                        Some(p) => table_for(ts@, p.0@, p.1),
                        None => true,
                    },
                    typed == *type_table is Some,
                    n == fs@.len(),
                    i <= n,
                    decreases_to!(*f => *fs),
                    f matches Formula::And(_) || f matches Formula::Or(_) || f
                        matches Formula::Xor(_),
                    (match *f {
                        Formula::And(fs2) => fs2 == *fs,
                        Formula::Or(fs2) => fs2 == *fs,
                        Formula::Xor(fs2) => fs2 == *fs,
                        _ => false,
                    }),
                    forall|k: int|
                        0 <= k < i ==> formula_ok(preds@, typed, ts@, env@, *(#[trigger] fs@[k])),
                decreases n - i,
            {
                proof {
                    assert(decreases_to!(*fs => (*fs)@[i as int]));
                }
                let r = check_formula(&fs[i], env, preds, type_table, ts);
                if let Err(e) = r {
                    proof {
                        assert(!formula_ok(preds@, typed, ts@, env@, *fs@[i as int]));
                        assert(!formula_ok(preds@, typed, ts@, env@, *f));
                        match &e {
                            SemanticErrorType::UndefinedPredicate(u) => {
                                let (p2, env2) = choose|p2: Predicate, env2: Seq<Variable>|
                                    #[trigger] formula_has_atom(*fs@[i as int], env@, p2, env2)
                                        && p2.name@ == u.symbol@ && p2.position == u.position;
                                assert(0 <= i < fs@.len() && formula_has_atom(
                                    *fs@[i as int],
                                    env@,
                                    p2,
                                    env2,
                                ));
                                assert(formula_has_atom(*f, env@, p2, env2));
                            },
                            SemanticErrorType::InconsistentPredicateArity(a) => {
                                let (p2, env2) = choose|p2: Predicate, env2: Seq<Variable>|
                                    #[trigger] formula_has_atom(*fs@[i as int], env@, p2, env2)
                                        && p2.name@ == a.symbol@ && p2.variables@.len()
                                        == a.found_arity && p2.position == a.position;
                                assert(0 <= i < fs@.len() && formula_has_atom(
                                    *fs@[i as int],
                                    env@,
                                    p2,
                                    env2,
                                ));
                                assert(formula_has_atom(*f, env@, p2, env2));
                            },
                            SemanticErrorType::InconsistentPredicateArgType(e2) => {
                                let (p2, env2) = choose|p2: Predicate, env2: Seq<Variable>|
                                    #[trigger] formula_has_atom(*fs@[i as int], env@, p2, env2)
                                        && arg_type_defect(preds@, ts@, env2, p2, *e2);
                                assert(0 <= i < fs@.len() && formula_has_atom(
                                    *fs@[i as int],
                                    env@,
                                    p2,
                                    env2,
                                ));
                                assert(formula_has_atom(*f, env@, p2, env2));
                            },
                            _ => {},
                        }
                    }
                    return Err(e);
                }
                i += 1;
            }
            proof {
                assert(formula_ok(preds@, typed, ts@, env@, *f));
            }
            Ok(())
        },
        Formula::Imply(f1, f2) => {
            proof {
                assert(decreases_to!(*f => f->Imply_0));
                assert(decreases_to!(*f => f->Imply_1));
            }
            let r1 = check_formula(f1, env, preds, type_table, ts);
            if let Err(e) = r1 {
                proof {
                    match &e {
                        SemanticErrorType::UndefinedPredicate(u) => {
                            let (p2, env2) = choose|p2: Predicate, env2: Seq<Variable>|
                                #[trigger] formula_has_atom(**f1, env@, p2, env2) && p2.name@
                                    == u.symbol@ && p2.position == u.position;
                            assert(formula_has_atom(*f, env@, p2, env2));
                        },
                        SemanticErrorType::InconsistentPredicateArity(a) => {
                            let (p2, env2) = choose|p2: Predicate, env2: Seq<Variable>|
                                #[trigger] formula_has_atom(**f1, env@, p2, env2) && p2.name@
                                    == a.symbol@ && p2.variables@.len() == a.found_arity
                                    && p2.position == a.position;
                            assert(formula_has_atom(*f, env@, p2, env2));
                        },
                        SemanticErrorType::InconsistentPredicateArgType(e2) => {
                            let (p2, env2) = choose|p2: Predicate, env2: Seq<Variable>|
                                #[trigger] formula_has_atom(**f1, env@, p2, env2)
                                    && arg_type_defect(preds@, ts@, env2, p2, *e2);
                            assert(formula_has_atom(*f, env@, p2, env2));
                        },
                        _ => {},
                    }
                }
                return Err(e);
            }
            let r2 = check_formula(f2, env, preds, type_table, ts);
            proof {
                if let Err(e) = &r2 {
                    match e {
                        SemanticErrorType::UndefinedPredicate(u) => {
                            let (p2, env2) = choose|p2: Predicate, env2: Seq<Variable>|
                                #[trigger] formula_has_atom(**f2, env@, p2, env2) && p2.name@
                                    == u.symbol@ && p2.position == u.position;
                            assert(formula_has_atom(*f, env@, p2, env2));
                        },
                        SemanticErrorType::InconsistentPredicateArity(a) => {
                            let (p2, env2) = choose|p2: Predicate, env2: Seq<Variable>|
                                #[trigger] formula_has_atom(**f2, env@, p2, env2) && p2.name@
                                    == a.symbol@ && p2.variables@.len() == a.found_arity
                                    && p2.position == a.position;
                            assert(formula_has_atom(*f, env@, p2, env2));
                        },
                        SemanticErrorType::InconsistentPredicateArgType(e2) => {
                            let (p2, env2) = choose|p2: Predicate, env2: Seq<Variable>|
                                #[trigger] formula_has_atom(**f2, env@, p2, env2)
                                    && arg_type_defect(preds@, ts@, env2, p2, *e2);
                            assert(formula_has_atom(*f, env@, p2, env2));
                        },
                        _ => {},
                    }
                }
            }
            r2
        },
        Formula::ForAll(vars, inner) | Formula::Exists(vars, inner) => {
            proof {
                match f {
                    Formula::ForAll(_, _) => {
                        assert(decreases_to!(*f => f->ForAll_1));
                    },
                    Formula::Exists(_, _) => {
                        assert(decreases_to!(*f => f->Exists_1));
                    },
                    _ => {},
                }
            }
            let mut env2: Vec<Variable> = Vec::new();
            let n_env = env.len();
            let mut i: usize = 0;
            while i < n_env
                invariant
                    n_env == env@.len(),
                    i <= n_env,
                    env2@.len() == i,
                    forall|k: int| 0 <= k < i ==> env2@[k] == env@[k],
                decreases n_env - i,
            {
                env2.push(env[i].clone());
                i += 1;
            }
            let n_vars = vars.len();
            let mut k: usize = 0;
            while k < n_vars
                invariant
                    n_env == env@.len(),
                    n_vars == vars@.len(),
                    k <= n_vars,
                    env2@.len() == n_env + k,
                    forall|k2: int| 0 <= k2 < n_env ==> env2@[k2] == env@[k2],
                    forall|k2: int| 0 <= k2 < k ==> env2@[n_env + k2] == vars@[k2],
                decreases n_vars - k,
            {
                env2.push(vars[k].clone());
                k += 1;
            }
            proof {
                assert(env2@ =~= env@ + vars@);
            }
            let r = check_formula(inner, &env2, preds, type_table, ts);
            proof {
                if let Err(e) = &r {
                    match e {
                        SemanticErrorType::UndefinedPredicate(u) => {
                            let (p2, envx) = choose|p2: Predicate, envx: Seq<Variable>|
                                #[trigger] formula_has_atom(**inner, env2@, p2, envx) && p2.name@
                                    == u.symbol@ && p2.position == u.position;
                            assert(formula_has_atom(*f, env@, p2, envx));
                        },
                        SemanticErrorType::InconsistentPredicateArity(a) => {
                            let (p2, envx) = choose|p2: Predicate, envx: Seq<Variable>|
                                #[trigger] formula_has_atom(**inner, env2@, p2, envx) && p2.name@
                                    == a.symbol@ && p2.variables@.len() == a.found_arity
                                    && p2.position == a.position;
                            assert(formula_has_atom(*f, env@, p2, envx));
                        },
                        SemanticErrorType::InconsistentPredicateArgType(e2) => {
                            let (p2, envx) = choose|p2: Predicate, envx: Seq<Variable>|
                                #[trigger] formula_has_atom(**inner, env2@, p2, envx)
                                    && arg_type_defect(preds@, ts@, envx, p2, *e2);
                            assert(formula_has_atom(*f, env@, p2, envx));
                        },
                        _ => {},
                    }
                }
            }
            r
        },
    }
}


/// One precedence pair orders label `a` before label `b`.
pub open spec fn order_link(pairs: Seq<(String, String)>, a: Seq<char>, b: Seq<char>) -> bool {
    exists|q: int| 0 <= q < pairs.len() && (#[trigger] pairs[q]).0@ == a && pairs[q].1@ == b
}

/// `c` is a cycle of subtask labels under the precedence pairs.
pub open spec fn order_cycle(pairs: Seq<(String, String)>, c: Seq<Seq<char>>) -> bool {
    c.len() > 0 && forall|k: int|
        0 <= k < c.len() ==> order_link(pairs, #[trigger] c[k], c[(k + 1) % (c.len() as int)])
}

/// Some chain of precedence pairs closes on itself.
pub open spec fn has_order_cycle(pairs: Seq<(String, String)>) -> bool {
    exists|c: Seq<Seq<char>>| order_cycle(pairs, c)
}

/// `nm` lies on some cycle of the precedence pairs.
pub open spec fn on_order_cycle(pairs: Seq<(String, String)>, nm: Seq<char>) -> bool {
    exists|c: Seq<Seq<char>>| order_cycle(pairs, c) && c.contains(nm)
}

/// The label table and graph stand for the precedence pairs: distinct
/// labels covering both components of every pair, edges matching pairs.
pub open spec fn label_table_for(
    pairs: Seq<(String, String)>,
    names: Seq<String>,
    g: Digraph,
) -> bool {
    &&& g.wf()
    &&& g.node_count() == names.len()
    &&& names.len() <= usize::MAX
    &&& forall|i: int, j: int| 0 <= i < j < names.len() ==> names[i]@ != names[j]@
    &&& forall|q: int| 0 <= q < pairs.len() ==> names_has(names, (#[trigger] pairs[q]).0@)
    &&& forall|q: int| 0 <= q < pairs.len() ==> names_has(names, (#[trigger] pairs[q]).1@)
    &&& forall|u: usize, v: usize|
        #[trigger] g.has_edge(u, v) ==> v < names.len() && order_link(
            pairs,
            names[u as int]@,
            names[v as int]@,
        )
    &&& forall|u: usize, v: usize|
        u < names.len() && v < names.len() && order_link(pairs, names[u as int]@, names[v as int]@)
            ==> #[trigger] g.has_edge(u, v)
}

/// Builds the label graph of a partial-order declaration: one node per
/// label mentioned, one edge per precedence pair.
#[verifier::rlimit(100)]
fn build_label_graph(pairs: &Vec<(String, String)>) -> (r: (Vec<String>, Digraph))
    ensures
        label_table_for(pairs@, r.0@, r.1),
{
    let n_pairs = pairs.len();
    let mut names: Vec<String> = Vec::new();
    let mut idx_pairs: Vec<(usize, usize)> = Vec::new();
    let mut q: usize = 0;
    while q < n_pairs
        invariant
            n_pairs == pairs@.len(),
            q <= n_pairs,
            forall|k1: int, k2: int| 0 <= k1 < k2 < names@.len() ==> names@[k1]@ != names@[k2]@,
            forall|k: int|
                0 <= k < idx_pairs@.len() ==> (#[trigger] idx_pairs@[k]).0 < names@.len()
                    && idx_pairs@[k].1 < names@.len(),
            idx_pairs@.len() == q,
            forall|k: int|
                0 <= k < q ==> names@[(#[trigger] idx_pairs@[k]).0 as int]@ == pairs@[k].0@
                    && names@[idx_pairs@[k].1 as int]@ == pairs@[k].1@,
        decreases n_pairs - q,
    {
        let ghost names_before = names@;
        let ghost idx_before = idx_pairs@;
        let a: usize = match find_in_names(&names, &pairs[q].0) {
            Some(i) => i,
            None => {
                let i = names.len();
                names.push(pairs[q].0.clone());
                i
            },
        };
        proof {
            assert(names@[a as int]@ == pairs@[q as int].0@);
            assert forall|k1: int, k2: int|
                0 <= k1 < k2 < names@.len() implies names@[k1]@ != names@[k2]@ by {
                if k2 < names_before.len() {
                    assert(names@[k1]@ == names_before[k1]@ && names@[k2]@ == names_before[k2]@);
                } else if names@.len() > names_before.len() {
                    assert(names@[k2]@ == pairs@[q as int].0@);
                    if k1 < names_before.len() {
                        assert(names@[k1]@ == names_before[k1]@);
                        assert(names_before[k1]@ != pairs@[q as int].0@);
                    }
                }
            }
        }
        let ghost names_mid = names@;
        let b: usize = match find_in_names(&names, &pairs[q].1) {
            Some(i) => i,
            None => {
                let i = names.len();
                names.push(pairs[q].1.clone());
                i
            },
        };
        proof {
            assert(names@[b as int]@ == pairs@[q as int].1@);
            assert(names@[a as int]@ == pairs@[q as int].0@);
            assert forall|k1: int, k2: int|
                0 <= k1 < k2 < names@.len() implies names@[k1]@ != names@[k2]@ by {
                if k2 < names_mid.len() {
                    assert(names@[k1]@ == names_mid[k1]@ && names@[k2]@ == names_mid[k2]@);
                } else if names@.len() > names_mid.len() {
                    assert(names@[k2]@ == pairs@[q as int].1@);
                    if k1 < names_mid.len() {
                        assert(names@[k1]@ == names_mid[k1]@);
                        assert(names_mid[k1]@ != pairs@[q as int].1@);
                    }
                }
            }
        }
        idx_pairs.push((a, b));
        proof {
            assert(idx_pairs@[idx_pairs@.len() - 1] == (a, b));
            assert forall|k: int|
                0 <= k < q + 1 implies names@[(#[trigger] idx_pairs@[k]).0 as int]@ == pairs@[k].0@
                    && names@[idx_pairs@[k].1 as int]@ == pairs@[k].1@ by {
                if k < q {
                    assert(idx_pairs@[k] == idx_before[k]);
                    assert(names@[idx_before[k].0 as int]@ == names_before[idx_before[k].0 as int]@);
                    assert(names@[idx_before[k].1 as int]@ == names_before[idx_before[k].1 as int]@);
                }
            }
        }
        q += 1;
    }
    let n = names.len();
    let mut edges: Vec<Vec<usize>> = Vec::new();
    let mut u: usize = 0;
    while u < n
        invariant
            n == names@.len(),
            u <= n,
            edges@.len() == u,
            forall|k: int|
                0 <= k < idx_pairs@.len() ==> (#[trigger] idx_pairs@[k]).0 < n && idx_pairs@[k].1
                    < n,
            forall|u2: usize, v2: usize|
                u2 < u && #[trigger] edges@[u2 as int]@.contains(v2) ==> idx_pairs@.contains(
                    (u2, v2),
                ),
            forall|k: int|
                0 <= k < idx_pairs@.len() && (#[trigger] idx_pairs@[k]).0 < u
                    ==> edges@[idx_pairs@[k].0 as int]@.contains(idx_pairs@[k].1),
        decreases n - u,
    {
        let mut row: Vec<usize> = Vec::new();
        let n_ip = idx_pairs.len();
        let mut k2: usize = 0;
        while k2 < n_ip
            invariant
                n_ip == idx_pairs@.len(),
                k2 <= n_ip,
                u < n,
                forall|k3: int|
                    0 <= k3 < idx_pairs@.len() ==> (#[trigger] idx_pairs@[k3]).0 < n
                        && idx_pairs@[k3].1 < n,
                forall|v2: usize| #[trigger] row@.contains(v2) ==> idx_pairs@.contains((u, v2)),
                forall|k3: int|
                    0 <= k3 < k2 && (#[trigger] idx_pairs@[k3]).0 == u ==> row@.contains(
                        idx_pairs@[k3].1,
                    ),
            decreases n_ip - k2,
        {
            let ghost row_before = row@;
            let (pu, pv) = idx_pairs[k2];
            if pu == u {
                row.push(pv);
                proof {
                    crate::graph::lemma_push_contains(row_before, pv);
                    assert(idx_pairs@.contains((u, pv))) by {
                        assert(idx_pairs@[k2 as int] == (u, pv));
                    }
                    assert forall|v2: usize| #[trigger] row@.contains(v2) implies idx_pairs@.contains(
                        (u, v2),
                    ) by {
                        if v2 != pv {
                            assert(row_before.contains(v2));
                        }
                    }
                    assert forall|k3: int|
                        0 <= k3 < k2 + 1 && (#[trigger] idx_pairs@[k3]).0 == u implies row@.contains(
                        idx_pairs@[k3].1,
                    ) by {
                        if k3 < k2 {
                            assert(row_before.contains(idx_pairs@[k3].1));
                        } else {
                            assert(row@.contains(pv));
                        }
                    }
                }
            } else {
                proof {
                    assert forall|k3: int|
                        0 <= k3 < k2 + 1 && (#[trigger] idx_pairs@[k3]).0 == u implies row@.contains(
                        idx_pairs@[k3].1,
                    ) by {
                        assert(k3 < k2);
                    }
                }
            }
            k2 += 1;
        }
        let ghost row_view = row@;
        let ghost edges_before = edges@;
        edges.push(row);
        proof {
            assert(edges@[u as int]@ == row_view);
            assert forall|u2: usize, v2: usize|
                u2 < u + 1 && #[trigger] edges@[u2 as int]@.contains(v2) implies idx_pairs@.contains(
                (u2, v2),
            ) by {
                if u2 == u {
                    assert(row_view.contains(v2));
                } else {
                    assert(edges@[u2 as int]@ == edges_before[u2 as int]@);
                    assert(edges_before[u2 as int]@.contains(v2));
                }
            }
            assert forall|k3: int|
                0 <= k3 < idx_pairs@.len() && (#[trigger] idx_pairs@[k3]).0 < u + 1
                    implies edges@[idx_pairs@[k3].0 as int]@.contains(idx_pairs@[k3].1) by {
                if idx_pairs@[k3].0 == u {
                    assert(row_view.contains(idx_pairs@[k3].1));
                    assert(edges@[u as int]@.contains(idx_pairs@[k3].1));
                } else {
                    assert(edges_before[idx_pairs@[k3].0 as int]@.contains(idx_pairs@[k3].1));
                    assert(edges@[idx_pairs@[k3].0 as int]@ == edges_before[idx_pairs@[k3].0 as int]@);
                }
            }
        }
        u += 1;
    }
    let g = Digraph { edges };
    let nlen = names.len();
    proof {
        assert(names@.len() == nlen);
        assert(g.wf()) by {
            assert forall|uu: int, jj: int|
                0 <= uu < g.edges@.len() && 0 <= jj < g.edges@[uu]@.len() implies (
            g.edges@[uu]@[jj]) < g.edges@.len() by {
                assert(g.edges@[uu]@.contains(g.edges@[uu]@[jj]));
                assert(idx_pairs@.contains((uu as usize, g.edges@[uu]@[jj])));
                let k = choose|k: int|
                    0 <= k < idx_pairs@.len() && idx_pairs@[k] == (
                    uu as usize,
                    g.edges@[uu]@[jj],
                );
            }
        }
        assert forall|q2: int| 0 <= q2 < pairs@.len() implies names_has(
            names@,
            (#[trigger] pairs@[q2]).0@,
        ) && names_has(names@, pairs@[q2].1@) by {
            assert(names@[idx_pairs@[q2].0 as int]@ == pairs@[q2].0@);
            assert(names@[idx_pairs@[q2].1 as int]@ == pairs@[q2].1@);
        }
        assert forall|uu: usize, vv: usize| #[trigger]
            g.has_edge(uu, vv) implies vv < names@.len() && order_link(
            pairs@,
            names@[uu as int]@,
            names@[vv as int]@,
        ) by {
            assert(g.edges@[uu as int]@.contains(vv));
            assert(idx_pairs@.contains((uu, vv)));
            let k = choose|k: int| 0 <= k < idx_pairs@.len() && idx_pairs@[k] == (uu, vv);
            assert((idx_pairs@[k]).0 == uu && idx_pairs@[k].1 == vv);
            assert((pairs@[k]).0@ == names@[uu as int]@ && pairs@[k].1@ == names@[vv as int]@);
        }
        assert forall|uu: usize, vv: usize|
            uu < names@.len() && vv < names@.len() && order_link(
                pairs@,
                names@[uu as int]@,
                names@[vv as int]@,
            ) implies #[trigger] g.has_edge(uu, vv) by {
            let k = choose|k: int|
                0 <= k < pairs@.len() && (#[trigger] pairs@[k]).0@ == names@[uu as int]@
                    && pairs@[k].1@ == names@[vv as int]@;
            assert(names@[(idx_pairs@[k]).0 as int]@ == names@[uu as int]@);
            assert(idx_pairs@[k].0 == uu) by {
                if idx_pairs@[k].0 != uu {
                    if (idx_pairs@[k].0 as int) < uu as int {
                        assert(names@[idx_pairs@[k].0 as int]@ != names@[uu as int]@);
                    } else {
                        assert(names@[uu as int]@ != names@[idx_pairs@[k].0 as int]@);
                    }
                }
            }
            assert(idx_pairs@[k].1 == vv) by {
                if idx_pairs@[k].1 != vv {
                    if (idx_pairs@[k].1 as int) < vv as int {
                        assert(names@[idx_pairs@[k].1 as int]@ != names@[vv as int]@);
                    } else {
                        assert(names@[vv as int]@ != names@[idx_pairs@[k].1 as int]@);
                    }
                }
            }
            assert(edges@[uu as int]@.contains(vv));
        }
    }
    (names, g)
}

/// A cycle in the label graph names a cycle of precedence pairs.
proof fn lemma_graph_cycle_gives_order_cycle(
    pairs: Seq<(String, String)>,
    names: Seq<String>,
    g: Digraph,
    c: Seq<usize>,
)
    requires
        g.is_cycle(c),
        label_table_for(pairs, names, g),
    ensures
        has_order_cycle(pairs),
        forall|v: usize| c.contains(v) ==> on_order_cycle(pairs, names[v as int]@),
{
    let cn = c.map_values(|u: usize| names[u as int]@);
    assert(cn.len() == c.len());
    assert forall|k: int| 0 <= k < cn.len() implies order_link(
        pairs,
        #[trigger] cn[k],
        cn[(k + 1) % (cn.len() as int)],
    ) by {
        assert(g.has_edge(c[k], c[(k + 1) % (c.len() as int)]));
        assert(cn[k] == names[c[k] as int]@);
        assert(cn[(k + 1) % (cn.len() as int)] == names[c[(k + 1) % (c.len() as int)] as int]@);
    }
    assert(order_cycle(pairs, cn));
    assert forall|v: usize| c.contains(v) implies on_order_cycle(pairs, names[v as int]@) by {
        let k = choose|k: int| 0 <= k < c.len() && c[k] == v;
        assert(cn[k] == names[v as int]@);
        assert(cn.contains(names[v as int]@));
    }
}

/// A label on any cycle position has a node in the table.
proof fn lemma_order_cycle_name_has_node(
    pairs: Seq<(String, String)>,
    names: Seq<String>,
    c: Seq<Seq<char>>,
    k: int,
)
    requires
        order_cycle(pairs, c),
        0 <= k < c.len(),
        forall|q: int| 0 <= q < pairs.len() ==> names_has(names, (#[trigger] pairs[q]).0@),
    ensures
        0 <= name_index(names, c[k]) < names.len(),
        names[name_index(names, c[k])]@ == c[k],
{
    let len = c.len() as int;
    let nxt = c[(k + 1) % len];
    assert(order_link(pairs, c[k], nxt));
    let q = choose|q: int|
        0 <= q < pairs.len() && (#[trigger] pairs[q]).0@ == c[k] && pairs[q].1@ == nxt;
    assert(names_has(names, pairs[q].0@));
    let w = choose|w: int| 0 <= w < names.len() && (#[trigger] names[w])@ == c[k];
    assert(names[name_index(names, c[k])]@ == c[k]);
}

/// A cycle of precedence pairs excludes a topological order of the
/// label graph.
#[verifier::rlimit(100)]
proof fn lemma_order_cycle_gives_not_acyclic(
    pairs: Seq<(String, String)>,
    names: Seq<String>,
    g: Digraph,
    c: Seq<Seq<char>>,
)
    requires
        order_cycle(pairs, c),
        label_table_for(pairs, names, g),
    ensures
        !g.acyclic(),
{
    let len = c.len() as int;
    let cidx = Seq::new(c.len(), |k: int| name_index(names, c[k]) as usize);
    assert forall|k: int| 0 <= k < cidx.len() implies g.has_edge(
        #[trigger] cidx[k],
        cidx[(k + 1) % (cidx.len() as int)],
    ) by {
        let k2 = (k + 1) % len;
        lemma_order_cycle_name_has_node(pairs, names, c, k);
        lemma_order_cycle_name_has_node(pairs, names, c, k2);
        assert(order_link(pairs, c[k], c[k2]));
        assert(0 <= name_index(names, c[k]) < names.len());
        assert(0 <= name_index(names, c[k2]) < names.len());
        assert(cidx[k] == name_index(names, c[k]) as usize);
        assert(cidx[k2] == name_index(names, c[k2]) as usize);
        assert(cidx[k] as int == name_index(names, c[k]));
        assert(cidx[k2] as int == name_index(names, c[k2]));
        assert(names[cidx[k] as int]@ == c[k]);
        assert(names[cidx[k2] as int]@ == c[k2]);
        assert(order_link(pairs, names[cidx[k] as int]@, names[cidx[k2] as int]@));
    }
    assert(g.is_cycle(cidx));
    g.lemma_cycle_not_acyclic(cidx);
}

/// Validates the subtask ordering constraints of one method: the
/// precedence pairs over subtask labels must be acyclic.
fn check_ordering_acyclic(orderings: &TaskOrdering) -> (r: Result<(), SemanticErrorType>)
    ensures
        (match *orderings {
            TaskOrdering::Total => r is Ok,
            TaskOrdering::Partial(pairs) => r is Ok <==> !has_order_cycle(pairs@),
        }),
        (match r {
            Err(SemanticErrorType::CyclicOrderingDeclaration(nm)) => orderings
                matches TaskOrdering::Partial(pairs) && on_order_cycle(pairs@, nm@),
            Err(_) => false,
            Ok(_) => true,
        }),
{
    match orderings {
        TaskOrdering::Total => Ok(()),
        TaskOrdering::Partial(pairs) => {
            let (names, g) = build_label_graph(pairs);
            match g.verify_acyclic() {
                Ok(()) => {
                    proof {
                        if has_order_cycle(pairs@) {
                            let c = choose|c: Seq<Seq<char>>| order_cycle(pairs@, c);
                            lemma_order_cycle_gives_not_acyclic(pairs@, names@, g, c);
                        }
                    }
                    Ok(())
                },
                Err(v) => {
                    proof {
                        let c = choose|c: Seq<usize>| g.is_cycle(c) && c.contains(v);
                        lemma_graph_cycle_gives_order_cycle(pairs@, names@, g, c);
                    }
                    Err(SemanticErrorType::CyclicOrderingDeclaration(names[v].clone()))
                },
            }
        },
    }
}


/// Validates a domain, fail-fast, in declaration order.
pub struct DomainSemanticAnalyzer {
    pub domain: DomainAST,
}

impl DomainSemanticAnalyzer {
    pub fn new(domain: DomainAST) -> (r: DomainSemanticAnalyzer)
        ensures
            r.domain == domain,
    {
        DomainSemanticAnalyzer { domain }
    }

    /// Runs the validation pipeline over the domain, the type
    /// hierarchy checked first: it must be acyclic; requirement,
    /// predicate, compound-task, action and method names must each be
    /// declared at most once within their category (the first
    /// repetition in declaration order is reported, with both lines);
    /// referenced types, predicates and subtasks must be declared; and
    /// invocation arities and argument types must match their
    /// declarations.
    pub fn verify_domain(&self) -> (r: Result<(), SemanticErrorType>)
        ensures
            domain_verdict_ok(self.domain, r),
    {
        verify_domain_ast(&self.domain)
    }
}

/// The validation pipeline over a borrowed domain, fail-fast: the type
/// hierarchy first, then the duplicate and reference checks in
/// declaration order.  Its verdict is exact: success on precisely the
/// defect-free domains, every error a real defect of its kind, tied to
/// its occurrence, raised only with all earlier stages clean.
#[verifier::rlimit(100)]
pub fn verify_domain_ast(d: &DomainAST) -> (r: Result<(), SemanticErrorType>)
    ensures
        domain_verdict_ok(*d, r),
{
    // the type hierarchy must be acyclic
    let type_table: Option<(Vec<String>, Digraph)> = match &d.types {
        None => None,
        Some(ts) => {
            let (names, g) = build_type_graph(ts);
            match g.verify_acyclic() {
                Ok(()) => {
                    proof {
                        if has_type_cycle(ts@) {
                            let c = choose|c: Seq<Seq<char>>| type_cycle(ts@, c);
                            assert(names@.len() == names.len());
                            lemma_type_cycle_gives_not_acyclic(ts@, names@, g, c);
                        }
                    }
                    let nlen = names.len();
                    proof {
                        assert(names@.len() == nlen);
                        assert(table_for(ts@, names@, g));
                    }
                    Some((names, g))
                },
                Err(v) => {
                    proof {
                        let c = choose|c: Seq<usize>| g.is_cycle(c) && c.contains(v);
                        lemma_graph_cycle_gives_type_cycle(ts@, names@, g, c);
                    }
                    return Err(SemanticErrorType::CyclicTypeDeclaration(names[v].clone()));
                },
            }
        },
    };
    proof {
        assert(tt_matches(type_table, d.types));
        assert(stage_types_ok(*d));
    }
    // requirement flags, compared by identity
    if let Some(rq) = first_duplicate_requirement(&d.requirements) {
        proof {
            assert(has_dup_req(d.requirements@));
        }
        return Err(SemanticErrorType::DuplicateRequirementDeclaration(rq));
    }
    proof {
        assert(stage_reqs_ok(*d));
    }
    // predicates: unique names, known parameter types
    let (p_names, p_lines) = collect_pred_names(&d.predicates);
    if let Some(e) = first_duplicate(&p_names, &p_lines) {
        proof {
            let pn = pred_names(d.predicates@);
            let (i, j) = choose|i: int, j: int|
                #![trigger pn[i], pn[j]]
                {
                    &&& 0 <= i < j < pn.len()
                    &&& pn[i] == pn[j]
                    &&& e.symbol@ == pn[j]
                };
            assert(!all_distinct(pn));
        }
        return Err(SemanticErrorType::DuplicatePredicateDeclaration(e));
    }
    proof {
        assert(stage_preds_distinct(*d));
    }
    let n_preds = d.predicates.len();
    let mut i: usize = 0;
    while i < n_preds
        invariant
            tt_matches(type_table, d.types),
            stage_preds_distinct(*d),
            n_preds == d.predicates@.len(),
            i <= n_preds,
            d.types is Some ==> forall|i2: int|
                0 <= i2 < i ==> var_types_known(
                    spec_ts(d.types),
                    (#[trigger] d.predicates@[i2]).variables@,
                ),
        decreases n_preds - i,
    {
        if let Err(e) = check_type_declarations(
            &d.predicates[i].variables,
            &type_table,
            Ghost(spec_ts(d.types)),
        ) {
            proof {
                assert(type_table is Some);
                assert(d.types is Some);
                if let SemanticErrorType::UndefinedType(t) = &e {
                    let k = choose|k: int|
                        0 <= k < d.predicates@[i as int].variables@.len() && (
                        #[trigger] d.predicates@[i as int].variables@[k]).var_type is Some
                            && d.predicates@[i as int].variables@[k].var_type->0@ == t@;
                    assert(uses_type(*d, t@));
                    assert(!var_types_known(
                        spec_ts(d.types),
                        d.predicates@[i as int].variables@,
                    ));
                    assert(!preds_types_ok(*d));
                }
            }
            return Err(e);
        }
        i += 1;
    }
    proof {
        assert(stage_preds_ok(*d));
    }
    // compound tasks: unique names, known parameter types
    let (t_names, t_lines) = collect_task_names(&d.compound_tasks);
    if let Some(e) = first_duplicate(&t_names, &t_lines) {
        proof {
            let tn = task_names(d.compound_tasks@);
            let (i2, j2) = choose|i2: int, j2: int|
                #![trigger tn[i2], tn[j2]]
                {
                    &&& 0 <= i2 < j2 < tn.len()
                    &&& tn[i2] == tn[j2]
                    &&& e.symbol@ == tn[j2]
                };
            assert(!all_distinct(tn));
        }
        return Err(SemanticErrorType::DuplicateCompoundTaskDeclaration(e));
    }
    let n_tasks = d.compound_tasks.len();
    let mut i2: usize = 0;
    while i2 < n_tasks
        invariant
            tt_matches(type_table, d.types),
            stage_tasks_distinct(*d),
            n_tasks == d.compound_tasks@.len(),
            i2 <= n_tasks,
            d.types is Some ==> forall|i3: int|
                0 <= i3 < i2 ==> var_types_known(
                    spec_ts(d.types),
                    (#[trigger] d.compound_tasks@[i3]).parameters@,
                ),
        decreases n_tasks - i2,
    {
        if let Err(e) = check_type_declarations(
            &d.compound_tasks[i2].parameters,
            &type_table,
            Ghost(spec_ts(d.types)),
        ) {
            proof {
                assert(type_table is Some);
                assert(d.types is Some);
                if let SemanticErrorType::UndefinedType(t) = &e {
                    let k = choose|k: int|
                        0 <= k < d.compound_tasks@[i2 as int].parameters@.len() && (
                        #[trigger] d.compound_tasks@[i2 as int].parameters@[k]).var_type is Some
                            && d.compound_tasks@[i2 as int].parameters@[k].var_type->0@ == t@;
                    assert(uses_type(*d, t@));
                    assert(!var_types_known(
                        spec_ts(d.types),
                        d.compound_tasks@[i2 as int].parameters@,
                    ));
                    assert(!tasks_types_ok(*d));
                }
            }
            return Err(e);
        }
        i2 += 1;
    }
    proof {
        assert(stage_tasks_ok(*d));
    }
    // actions: unique names
    let (a_names, a_lines) = collect_action_names(&d.actions);
    if let Some(e) = first_duplicate(&a_names, &a_lines) {
        proof {
            let an = action_names(d.actions@);
            let (i3, j3) = choose|i3: int, j3: int|
                #![trigger an[i3], an[j3]]
                {
                    &&& 0 <= i3 < j3 < an.len()
                    &&& an[i3] == an[j3]
                    &&& e.symbol@ == an[j3]
                };
            assert(!all_distinct(an));
        }
        return Err(SemanticErrorType::DuplicateActionDeclaration(e));
    }
    // action parameter types and formulas
    let n_actions = d.actions.len();
    let mut i3: usize = 0;
    while i3 < n_actions
        invariant
            tt_matches(type_table, d.types),
            stage_actions_distinct(*d),
            n_actions == d.actions@.len(),
            i3 <= n_actions,
            d.types is Some ==> forall|i4: int|
                0 <= i4 < i3 ==> var_types_known(
                    spec_ts(d.types),
                    (#[trigger] d.actions@[i4]).parameters@,
                ),
            forall|i4: int|
                0 <= i4 < i3 ==> ((#[trigger] d.actions@[i4]).preconditions is Some
                    ==> formula_ok(
                    d.predicates@,
                    d.types is Some,
                    spec_ts(d.types),
                    d.actions@[i4].parameters@,
                    d.actions@[i4].preconditions->0,
                )) && (d.actions@[i4].effects is Some ==> formula_ok(
                    d.predicates@,
                    d.types is Some,
                    spec_ts(d.types),
                    d.actions@[i4].parameters@,
                    d.actions@[i4].effects->0,
                )),
        decreases n_actions - i3,
    {
        let action = &d.actions[i3];
        if let Err(e) = check_type_declarations(
            &action.parameters,
            &type_table,
            Ghost(spec_ts(d.types)),
        ) {
            proof {
                assert(type_table is Some);
                assert(d.types is Some);
                if let SemanticErrorType::UndefinedType(t) = &e {
                    let k = choose|k: int|
                        0 <= k < d.actions@[i3 as int].parameters@.len() && (
                        #[trigger] d.actions@[i3 as int].parameters@[k]).var_type is Some
                            && d.actions@[i3 as int].parameters@[k].var_type->0@ == t@;
                    assert(uses_type(*d, t@));
                    assert(!var_types_known(spec_ts(d.types), d.actions@[i3 as int].parameters@));
                    assert(!actions_types_ok(*d));
                }
            }
            return Err(e);
        }
        if let Some(pre) = &action.preconditions {
            let r = check_formula(
                pre,
                &action.parameters,
                &d.predicates,
                &type_table,
                Ghost(spec_ts(d.types)),
            );
            if let Err(e) = r {
                proof {
                    assert(!formula_ok(
                        d.predicates@,
                        d.types is Some,
                        spec_ts(d.types),
                        d.actions@[i3 as int].parameters@,
                        d.actions@[i3 as int].preconditions->0,
                    ));
                    assert(!action_formulas_ok(*d));
                    lift_action_pre_atom(*d, i3 as int, spec_ts(d.types), &e);
                }
                return Err(e);
            }
        }
        if let Some(eff) = &action.effects {
            let r = check_formula(
                eff,
                &action.parameters,
                &d.predicates,
                &type_table,
                Ghost(spec_ts(d.types)),
            );
            if let Err(e) = r {
                proof {
                    assert(!formula_ok(
                        d.predicates@,
                        d.types is Some,
                        spec_ts(d.types),
                        d.actions@[i3 as int].parameters@,
                        d.actions@[i3 as int].effects->0,
                    ));
                    assert(!action_formulas_ok(*d));
                    lift_action_eff_atom(*d, i3 as int, spec_ts(d.types), &e);
                }
                return Err(e);
            }
        }
        i3 += 1;
    }
    proof {
        assert(stage_actions_ok(*d));
    }
    // methods: unique names, known parameter types, valid preconditions,
    // a declared task of matching arity and argument types, declared
    // subtasks, acyclic orderings
    let (m_names, m_lines) = collect_method_names(&d.methods);
    if let Some(e) = first_duplicate(&m_names, &m_lines) {
        proof {
            let mn = method_names(d.methods@);
            let (i4, j4) = choose|i4: int, j4: int|
                #![trigger mn[i4], mn[j4]]
                {
                    &&& 0 <= i4 < j4 < mn.len()
                    &&& mn[i4] == mn[j4]
                    &&& e.symbol@ == mn[j4]
                };
            assert(!all_distinct(mn));
        }
        return Err(SemanticErrorType::DuplicateMethodDeclaration(e));
    }
    let n_methods = d.methods.len();
    let mut i4: usize = 0;
    while i4 < n_methods
        invariant
            tt_matches(type_table, d.types),
            stage_methods_distinct(*d),
            n_methods == d.methods@.len(),
            i4 <= n_methods,
            d.types is Some ==> forall|m2: int|
                0 <= m2 < i4 ==> var_types_known(
                    spec_ts(d.types),
                    (#[trigger] d.methods@[m2]).params@,
                ),
            forall|m2: int|
                0 <= m2 < i4 ==> ((#[trigger] d.methods@[m2]).precondition is Some
                    ==> formula_ok(
                    d.predicates@,
                    d.types is Some,
                    spec_ts(d.types),
                    d.methods@[m2].params@,
                    d.methods@[m2].precondition->0,
                )),
            forall|m2: int| 0 <= m2 < i4 ==> method_task_full_ok(*d, m2),
            forall|m2: int, k2: int|
                0 <= m2 < i4 && 0 <= k2 < d.methods@[m2].tn.subtasks@.len() ==> subtask_declared(
                    *d,
                    m2,
                    k2,
                ),
            forall|m2: int| 0 <= m2 < i4 ==> method_orderings_ok(*d, m2),
        decreases n_methods - i4,
    {
        let method = &d.methods[i4];
        if let Err(e) = check_type_declarations(
            &method.params,
            &type_table,
            Ghost(spec_ts(d.types)),
        ) {
            proof {
                assert(type_table is Some);
                assert(d.types is Some);
                if let SemanticErrorType::UndefinedType(t) = &e {
                    let k = choose|k: int|
                        0 <= k < d.methods@[i4 as int].params@.len() && (
                        #[trigger] d.methods@[i4 as int].params@[k]).var_type is Some
                            && d.methods@[i4 as int].params@[k].var_type->0@ == t@;
                    assert(uses_type(*d, t@));
                    assert(!var_types_known(spec_ts(d.types), d.methods@[i4 as int].params@));
                    assert(!methods_types_ok(*d));
                }
            }
            return Err(e);
        }
        if let Some(pre) = &method.precondition {
            let r = check_formula(
                pre,
                &method.params,
                &d.predicates,
                &type_table,
                Ghost(spec_ts(d.types)),
            );
            if let Err(e) = r {
                proof {
                    assert(!formula_ok(
                        d.predicates@,
                        d.types is Some,
                        spec_ts(d.types),
                        d.methods@[i4 as int].params@,
                        d.methods@[i4 as int].precondition->0,
                    ));
                    assert(!method_preconditions_ok(*d));
                    lift_method_pre_atom(*d, i4 as int, spec_ts(d.types), &e);
                }
                return Err(e);
            }
        }
        match find_task(&d.compound_tasks, &method.task_name) {
            Some(decl) => {
                let ghost t0 = choose|t: int|
                    0 <= t < d.compound_tasks@.len() && (#[trigger] d.compound_tasks@[t]).name@
                        == method.task_name@ && d.compound_tasks@[t] == *decl;
                proof {
                    assert forall|t: int|
                        0 <= t < d.compound_tasks@.len() && (#[trigger] d.compound_tasks@[t]).name@
                            == method.task_name@ implies t == t0 by {
                        if t != t0 {
                            assert(task_names(d.compound_tasks@)[t] == task_names(
                                d.compound_tasks@,
                            )[t0]);
                        }
                    }
                }
                if decl.parameters.len() != method.task_terms.len() {
                    proof {
                        assert(!method_task_full_ok(*d, i4 as int)) by {
                            if method_task_full_ok(*d, i4 as int) {
                                let t = choose|t: int|
                                    0 <= t < d.compound_tasks@.len() && (
                                    #[trigger] d.compound_tasks@[t]).name@
                                        == d.methods@[i4 as int].task_name@
                                        && d.compound_tasks@[t].parameters@.len()
                                        == d.methods@[i4 as int].task_terms@.len() && (d.types
                                        is Some ==> forall|k: int|
                                        0 <= k < d.methods@[i4 as int].task_terms@.len()
                                            ==> compat(
                                            spec_ts(d.types),
                                            env_type(
                                                d.methods@[i4 as int].params@,
                                                (#[trigger] d.methods@[i4 as int].task_terms@[k]).name@,
                                            ),
                                            opt_name_view(
                                                d.compound_tasks@[t].parameters@[k].var_type,
                                            ),
                                        ));
                                assert(t == t0);
                            }
                        }
                    }
                    return Err(
                        SemanticErrorType::InconsistentTaskArity(
                            ArityError {
                                symbol: method.task_name.clone(),
                                expected_arity: decl.parameters.len(),
                                found_arity: method.task_terms.len(),
                                position: method.position,
                            },
                        ),
                    );
                }
                // each argument term's declared type must fit the
                // task parameter it is passed for
                match &type_table {
                    None => {
                        proof {
                            assert(method_task_full_ok(*d, i4 as int)) by {
                                assert(d.compound_tasks@[t0].name@
                                    == d.methods@[i4 as int].task_name@);
                                assert(d.types is None);
                            }
                        }
                    },
                    Some((names, g)) => {
                        let n_terms = method.task_terms.len();
                        let mut q: usize = 0;
                        proof {
                            assert(table_for(spec_ts(d.types), names@, *g));
                        }
                        while q < n_terms
                            invariant
                                n_terms == method.task_terms@.len(),
                                n_terms == decl.parameters@.len(),
                                method.task_terms@ == d.methods@[i4 as int].task_terms@,
                                method.params@ == d.methods@[i4 as int].params@,
                                method.task_name@ == d.methods@[i4 as int].task_name@,
                                decl.parameters@ == d.compound_tasks@[t0].parameters@,
                                0 <= t0 < d.compound_tasks@.len(),
                                d.compound_tasks@[t0].name@ == d.methods@[i4 as int].task_name@,
                                i4 < d.methods@.len(),
                                forall|t: int|
                                    0 <= t < d.compound_tasks@.len() && (
                                    #[trigger] d.compound_tasks@[t]).name@
                                        == d.methods@[i4 as int].task_name@ ==> t == t0,
                                q <= n_terms,
                                stage_methods_distinct(*d),
                                table_for(spec_ts(d.types), names@, *g),
                                d.types is Some,
                                forall|k: int|
                                    0 <= k < q ==> compat(
                                        spec_ts(d.types),
                                        env_type(
                                            d.methods@[i4 as int].params@,
                                            (#[trigger] d.methods@[i4 as int].task_terms@[k]).name@,
                                        ),
                                        opt_name_view(
                                            d.compound_tasks@[t0].parameters@[k].var_type,
                                        ),
                                    ),
                            decreases n_terms - q,
                        {
                            let arg_type: Option<String> = lookup_var(
                                &method.params,
                                &method.task_terms[q].name,
                            );
                            let expected = match &decl.parameters[q].var_type {
                                Some(t) => Some(t.clone()),
                                None => None,
                            };
                            proof {
                                assert(opt_name_view(expected) == opt_name_view(
                                    decl.parameters@[q as int].var_type,
                                ));
                            }
                            let trivially_ok = matches!((&arg_type, &expected), (None, None));
                            if !trivially_ok {
                                if !type_compatible(
                                    names,
                                    g,
                                    &arg_type,
                                    &expected,
                                    Ghost(spec_ts(d.types)),
                                ) {
                                    let e = TypeError {
                                        expected,
                                        found: arg_type,
                                        var_name: method.task_terms[q].name.clone(),
                                    };
                                    proof {
                                        assert(!compat(
                                            spec_ts(d.types),
                                            env_type(
                                                d.methods@[i4 as int].params@,
                                                d.methods@[i4 as int].task_terms@[q as int].name@,
                                            ),
                                            opt_name_view(
                                                d.compound_tasks@[t0].parameters@[q as int].var_type,
                                            ),
                                        ));
                                        assert(opt_name_view(
                                            (d.compound_tasks@[t0].parameters@[q as int]).var_type,
                                        ) == opt_name_view(e.expected));
                                        assert(task_arg_defect(*d, i4 as int, e));
                                        assert(!method_task_full_ok(*d, i4 as int)) by {
                                            if method_task_full_ok(*d, i4 as int) {
                                                let t = choose|t: int|
                                                    0 <= t < d.compound_tasks@.len() && (
                                                    #[trigger] d.compound_tasks@[t]).name@
                                                        == d.methods@[i4 as int].task_name@
                                                        && d.compound_tasks@[t].parameters@.len()
                                                        == d.methods@[i4 as int].task_terms@.len()
                                                        && (d.types is Some ==> forall|k2: int|
                                                        0 <= k2 < d.methods@[i4 as int].task_terms@.len()
                                                            ==> compat(
                                                            spec_ts(d.types),
                                                            env_type(
                                                                d.methods@[i4 as int].params@,
                                                                (#[trigger] d.methods@[i4 as int].task_terms@[k2]).name@,
                                                            ),
                                                            opt_name_view(
                                                                d.compound_tasks@[t].parameters@[k2].var_type,
                                                            ),
                                                        ));
                                                assert(t == t0);
                                            }
                                        }
                                    }
                                    return Err(SemanticErrorType::InconsistentTaskArgType(e));
                                }
                            }
                            proof {
                                if trivially_ok {
                                    assert(opt_name_view(arg_type) is None && opt_name_view(
                                        expected,
                                    ) is None);
                                }
                                assert(compat(
                                    spec_ts(d.types),
                                    env_type(
                                        d.methods@[i4 as int].params@,
                                        d.methods@[i4 as int].task_terms@[q as int].name@,
                                    ),
                                    opt_name_view(d.compound_tasks@[t0].parameters@[q as int].var_type),
                                ));
                            }
                            q += 1;
                        }
                        proof {
                            assert(method_task_full_ok(*d, i4 as int)) by {
                                assert(d.compound_tasks@[t0].name@
                                    == d.methods@[i4 as int].task_name@);
                            }
                        }
                    },
                }
            },
            None => {
                proof {
                    assert(task_undeclared(*d, d.methods@[i4 as int].task_name@));
                    assert(!method_task_full_ok(*d, i4 as int));
                }
                return Err(SemanticErrorType::UndefinedTask(method.task_name.clone()));
            },
        }
        let n_subs = method.tn.subtasks.len();
        let mut k: usize = 0;
        while k < n_subs
            invariant
                n_methods == d.methods@.len(),
                i4 < n_methods,
                stage_methods_distinct(*d),
                n_subs == d.methods@[i4 as int].tn.subtasks@.len(),
                k <= n_subs,
                forall|k2: int| 0 <= k2 < k ==> subtask_declared(*d, i4 as int, k2),
            decreases n_subs - k,
        {
            let st = &d.methods[i4].tn.subtasks[k];
            let found_task = find_task(&d.compound_tasks, &st.task_symbol);
            let declared_as_task = matches!(found_task, Some(_));
            let found_action = find_action(&d.actions, &st.task_symbol);
            let declared_as_action = matches!(found_action, Some(_));
            if !declared_as_task && !declared_as_action {
                proof {
                    let sym = d.methods@[i4 as int].tn.subtasks@[k as int].task_symbol@;
                    let nt = d.compound_tasks@.len() as int;
                    assert(!crate::tdg::ast_has_symbol(*d, sym)) by {
                        if crate::tdg::ast_has_symbol(*d, sym) {
                            let t = choose|t: int|
                                0 <= t < crate::tdg::domain_symbol_count(*d) && #[trigger] crate::tdg::domain_symbol(
                                    *d,
                                    t,
                                ) == sym;
                            if t < nt {
                                assert(d.compound_tasks@[t].name@ == sym);
                            } else {
                                assert(d.actions@[t - nt].name@ == sym);
                            }
                        }
                    }
                    assert(!subtask_declared(*d, i4 as int, k as int));
                }
                return Err(SemanticErrorType::UndefinedSubtask(st.task_symbol.clone()));
            }
            proof {
                let nt = d.compound_tasks@.len() as int;
                let sym = d.methods@[i4 as int].tn.subtasks@[k as int].task_symbol@;
                if declared_as_task {
                    let t = choose|t: int|
                        0 <= t < d.compound_tasks@.len() && (#[trigger] d.compound_tasks@[t]).name@
                            == sym && d.compound_tasks@[t] == *found_task->0;
                    assert(crate::tdg::domain_symbol(*d, t) == sym);
                    assert(crate::tdg::ast_has_symbol(*d, sym));
                } else {
                    let t = choose|t: int|
                        0 <= t < d.actions@.len() && (#[trigger] d.actions@[t]).name@ == sym
                            && d.actions@[t] == *found_action->0;
                    assert(crate::tdg::domain_symbol(*d, nt + t) == sym);
                    assert(crate::tdg::ast_has_symbol(*d, sym));
                }
                assert(subtask_declared(*d, i4 as int, k as int));
            }
            k += 1;
        }
        let r_ord = check_ordering_acyclic(&method.tn.orderings);
        if let Err(e) = r_ord {
            proof {
                assert(!method_orderings_ok(*d, i4 as int));
                if let SemanticErrorType::CyclicOrderingDeclaration(nm) = &e {
                    assert(d.methods@[i4 as int].tn.orderings matches TaskOrdering::Partial(pairs)
                        && on_order_cycle(pairs@, nm@));
                }
            }
            return Err(e);
        }
        proof {
            assert(method_orderings_ok(*d, i4 as int)) by {
                match d.methods@[i4 as int].tn.orderings {
                    TaskOrdering::Total => {},
                    TaskOrdering::Partial(pairs) => {},
                }
            }
        }
        i4 += 1;
    }
    proof {
        assert(domain_ok(*d));
    }
    Ok(())
}

/// Lifts a formula error's atom witness from action `i`'s precondition
/// to the domain level.
proof fn lift_action_pre_atom(d: DomainAST, i: int, ts: Seq<Variable>, e: &SemanticErrorType)
    requires
        0 <= i < d.actions@.len(),
        d.actions@[i].preconditions is Some,
        ts == spec_ts(d.types),
        (match *e {
            SemanticErrorType::UndefinedPredicate(u) => exists|p2: Predicate, env2: Seq<Variable>|
                #[trigger] formula_has_atom(
                    d.actions@[i].preconditions->0,
                    d.actions@[i].parameters@,
                    p2,
                    env2,
                ) && p2.name@ == u.symbol@ && p2.position == u.position,
            SemanticErrorType::InconsistentPredicateArity(a) => exists|
                p2: Predicate,
                env2: Seq<Variable>,
            |
                #[trigger] formula_has_atom(
                    d.actions@[i].preconditions->0,
                    d.actions@[i].parameters@,
                    p2,
                    env2,
                ) && p2.name@ == a.symbol@ && p2.variables@.len() == a.found_arity && p2.position
                    == a.position,
            SemanticErrorType::InconsistentPredicateArgType(et) => exists|
                p2: Predicate,
                env2: Seq<Variable>,
            |
                #[trigger] formula_has_atom(
                    d.actions@[i].preconditions->0,
                    d.actions@[i].parameters@,
                    p2,
                    env2,
                ) && arg_type_defect(d.predicates@, ts, env2, p2, et),
            _ => true,
        }),
    ensures
        (match *e {
            SemanticErrorType::UndefinedPredicate(u) => exists|p2: Predicate, env2: Seq<Variable>|
                #[trigger] domain_has_atom(d, p2, env2) && p2.name@ == u.symbol@ && p2.position
                    == u.position,
            SemanticErrorType::InconsistentPredicateArity(a) => exists|
                p2: Predicate,
                env2: Seq<Variable>,
            |
                #[trigger] domain_has_atom(d, p2, env2) && p2.name@ == a.symbol@
                    && p2.variables@.len() == a.found_arity && p2.position == a.position,
            SemanticErrorType::InconsistentPredicateArgType(et) => exists|
                p2: Predicate,
                env2: Seq<Variable>,
            |
                #[trigger] domain_has_atom(d, p2, env2) && arg_type_defect(
                    d.predicates@,
                    spec_ts(d.types),
                    env2,
                    p2,
                    et,
                ),
            _ => true,
        }),
{
    match *e {
        SemanticErrorType::UndefinedPredicate(u) => {
            let (p2, env2) = choose|p2: Predicate, env2: Seq<Variable>|
                #[trigger] formula_has_atom(
                    d.actions@[i].preconditions->0,
                    d.actions@[i].parameters@,
                    p2,
                    env2,
                ) && p2.name@ == u.symbol@ && p2.position == u.position;
            assert(domain_has_atom(d, p2, env2));
        },
        SemanticErrorType::InconsistentPredicateArity(a) => {
            let (p2, env2) = choose|p2: Predicate, env2: Seq<Variable>|
                #[trigger] formula_has_atom(
                    d.actions@[i].preconditions->0,
                    d.actions@[i].parameters@,
                    p2,
                    env2,
                ) && p2.name@ == a.symbol@ && p2.variables@.len() == a.found_arity && p2.position
                    == a.position;
            assert(domain_has_atom(d, p2, env2));
        },
        SemanticErrorType::InconsistentPredicateArgType(et) => {
            let (p2, env2) = choose|p2: Predicate, env2: Seq<Variable>|
                #[trigger] formula_has_atom(
                    d.actions@[i].preconditions->0,
                    d.actions@[i].parameters@,
                    p2,
                    env2,
                ) && arg_type_defect(d.predicates@, ts, env2, p2, et);
            assert(domain_has_atom(d, p2, env2));
        },
        _ => {},
    }
}

/// Lifts a formula error's atom witness from action `i`'s effect to the
/// domain level.
proof fn lift_action_eff_atom(d: DomainAST, i: int, ts: Seq<Variable>, e: &SemanticErrorType)
    requires
        0 <= i < d.actions@.len(),
        d.actions@[i].effects is Some,
        ts == spec_ts(d.types),
        (match *e {
            SemanticErrorType::UndefinedPredicate(u) => exists|p2: Predicate, env2: Seq<Variable>|
                #[trigger] formula_has_atom(
                    d.actions@[i].effects->0,
                    d.actions@[i].parameters@,
                    p2,
                    env2,
                ) && p2.name@ == u.symbol@ && p2.position == u.position,
            SemanticErrorType::InconsistentPredicateArity(a) => exists|
                p2: Predicate,
                env2: Seq<Variable>,
            |
                #[trigger] formula_has_atom(
                    d.actions@[i].effects->0,
                    d.actions@[i].parameters@,
                    p2,
                    env2,
                ) && p2.name@ == a.symbol@ && p2.variables@.len() == a.found_arity && p2.position
                    == a.position,
            SemanticErrorType::InconsistentPredicateArgType(et) => exists|
                p2: Predicate,
                env2: Seq<Variable>,
            |
                #[trigger] formula_has_atom(
                    d.actions@[i].effects->0,
                    d.actions@[i].parameters@,
                    p2,
                    env2,
                ) && arg_type_defect(d.predicates@, ts, env2, p2, et),
            _ => true,
        }),
    ensures
        (match *e {
            SemanticErrorType::UndefinedPredicate(u) => exists|p2: Predicate, env2: Seq<Variable>|
                #[trigger] domain_has_atom(d, p2, env2) && p2.name@ == u.symbol@ && p2.position
                    == u.position,
            SemanticErrorType::InconsistentPredicateArity(a) => exists|
                p2: Predicate,
                env2: Seq<Variable>,
            |
                #[trigger] domain_has_atom(d, p2, env2) && p2.name@ == a.symbol@
                    && p2.variables@.len() == a.found_arity && p2.position == a.position,
            SemanticErrorType::InconsistentPredicateArgType(et) => exists|
                p2: Predicate,
                env2: Seq<Variable>,
            |
                #[trigger] domain_has_atom(d, p2, env2) && arg_type_defect(
                    d.predicates@,
                    spec_ts(d.types),
                    env2,
                    p2,
                    et,
                ),
            _ => true,
        }),
{
    match *e {
        SemanticErrorType::UndefinedPredicate(u) => {
            let (p2, env2) = choose|p2: Predicate, env2: Seq<Variable>|
                #[trigger] formula_has_atom(
                    d.actions@[i].effects->0,
                    d.actions@[i].parameters@,
                    p2,
                    env2,
                ) && p2.name@ == u.symbol@ && p2.position == u.position;
            assert(domain_has_atom(d, p2, env2));
        },
        SemanticErrorType::InconsistentPredicateArity(a) => {
            let (p2, env2) = choose|p2: Predicate, env2: Seq<Variable>|
                #[trigger] formula_has_atom(
                    d.actions@[i].effects->0,
                    d.actions@[i].parameters@,
                    p2,
                    env2,
                ) && p2.name@ == a.symbol@ && p2.variables@.len() == a.found_arity && p2.position
                    == a.position;
            assert(domain_has_atom(d, p2, env2));
        },
        SemanticErrorType::InconsistentPredicateArgType(et) => {
            let (p2, env2) = choose|p2: Predicate, env2: Seq<Variable>|
                #[trigger] formula_has_atom(
                    d.actions@[i].effects->0,
                    d.actions@[i].parameters@,
                    p2,
                    env2,
                ) && arg_type_defect(d.predicates@, ts, env2, p2, et);
            assert(domain_has_atom(d, p2, env2));
        },
        _ => {},
    }
}

/// Lifts a formula error's atom witness from method `m`'s precondition
/// to the domain level.
proof fn lift_method_pre_atom(d: DomainAST, m: int, ts: Seq<Variable>, e: &SemanticErrorType)
    requires
        0 <= m < d.methods@.len(),
        d.methods@[m].precondition is Some,
        ts == spec_ts(d.types),
        (match *e {
            SemanticErrorType::UndefinedPredicate(u) => exists|p2: Predicate, env2: Seq<Variable>|
                #[trigger] formula_has_atom(
                    d.methods@[m].precondition->0,
                    d.methods@[m].params@,
                    p2,
                    env2,
                ) && p2.name@ == u.symbol@ && p2.position == u.position,
            SemanticErrorType::InconsistentPredicateArity(a) => exists|
                p2: Predicate,
                env2: Seq<Variable>,
            |
                #[trigger] formula_has_atom(
                    d.methods@[m].precondition->0,
                    d.methods@[m].params@,
                    p2,
                    env2,
                ) && p2.name@ == a.symbol@ && p2.variables@.len() == a.found_arity && p2.position
                    == a.position,
            SemanticErrorType::InconsistentPredicateArgType(et) => exists|
                p2: Predicate,
                env2: Seq<Variable>,
            |
                #[trigger] formula_has_atom(
                    d.methods@[m].precondition->0,
                    d.methods@[m].params@,
                    p2,
                    env2,
                ) && arg_type_defect(d.predicates@, ts, env2, p2, et),
            _ => true,
        }),
    ensures
        (match *e {
            SemanticErrorType::UndefinedPredicate(u) => exists|p2: Predicate, env2: Seq<Variable>|
                #[trigger] domain_has_atom(d, p2, env2) && p2.name@ == u.symbol@ && p2.position
                    == u.position,
            SemanticErrorType::InconsistentPredicateArity(a) => exists|
                p2: Predicate,
                env2: Seq<Variable>,
            |
                #[trigger] domain_has_atom(d, p2, env2) && p2.name@ == a.symbol@
                    && p2.variables@.len() == a.found_arity && p2.position == a.position,
            SemanticErrorType::InconsistentPredicateArgType(et) => exists|
                p2: Predicate,
                env2: Seq<Variable>,
            |
                #[trigger] domain_has_atom(d, p2, env2) && arg_type_defect(
                    d.predicates@,
                    spec_ts(d.types),
                    env2,
                    p2,
                    et,
                ),
            _ => true,
        }),
{
    match *e {
        SemanticErrorType::UndefinedPredicate(u) => {
            let (p2, env2) = choose|p2: Predicate, env2: Seq<Variable>|
                #[trigger] formula_has_atom(
                    d.methods@[m].precondition->0,
                    d.methods@[m].params@,
                    p2,
                    env2,
                ) && p2.name@ == u.symbol@ && p2.position == u.position;
            assert(domain_has_atom(d, p2, env2));
        },
        SemanticErrorType::InconsistentPredicateArity(a) => {
            let (p2, env2) = choose|p2: Predicate, env2: Seq<Variable>|
                #[trigger] formula_has_atom(
                    d.methods@[m].precondition->0,
                    d.methods@[m].params@,
                    p2,
                    env2,
                ) && p2.name@ == a.symbol@ && p2.variables@.len() == a.found_arity && p2.position
                    == a.position;
            assert(domain_has_atom(d, p2, env2));
        },
        SemanticErrorType::InconsistentPredicateArgType(et) => {
            let (p2, env2) = choose|p2: Predicate, env2: Seq<Variable>|
                #[trigger] formula_has_atom(
                    d.methods@[m].precondition->0,
                    d.methods@[m].params@,
                    p2,
                    env2,
                ) && arg_type_defect(d.predicates@, ts, env2, p2, et);
            assert(domain_has_atom(d, p2, env2));
        },
        _ => {},
    }
}

/// Finds a compound task declaration by name.
fn find_task<'a>(tasks: &'a Vec<CompoundTask>, nm: &String) -> (r: Option<&'a CompoundTask>)
    ensures
        match r {
            Some(decl) => exists|t: int|
                0 <= t < tasks@.len() && (#[trigger] tasks@[t]).name@ == nm@ && tasks@[t] == *decl,
            None => forall|t: int| 0 <= t < tasks@.len() ==> (#[trigger] tasks@[t]).name@ != nm@,
        },
{
    let n = tasks.len();
    let mut i: usize = 0;
    while i < n
        invariant
            n == tasks@.len(),
            i <= n,
            forall|t: int| 0 <= t < i ==> (#[trigger] tasks@[t]).name@ != nm@,
        decreases n - i,
    {
        if tasks[i].name == *nm {
            proof {
                assert(tasks@[i as int].name@ == nm@);
            }
            return Some(&tasks[i]);
        }
        i += 1;
    }
    None
}

/// Finds an action declaration by name.
fn find_action<'a>(actions: &'a Vec<Action>, nm: &String) -> (r: Option<&'a Action>)
    ensures
        match r {
            Some(decl) => exists|t: int|
                0 <= t < actions@.len() && (#[trigger] actions@[t]).name@ == nm@ && actions@[t]
                    == *decl,
            None => forall|t: int| 0 <= t < actions@.len() ==> (#[trigger] actions@[t]).name@
                != nm@,
        },
{
    let n = actions.len();
    let mut i: usize = 0;
    while i < n
        invariant
            n == actions@.len(),
            i <= n,
            forall|t: int| 0 <= t < i ==> (#[trigger] actions@[t]).name@ != nm@,
        decreases n - i,
    {
        if actions[i].name == *nm {
            proof {
                assert(actions@[i as int].name@ == nm@);
            }
            return Some(&actions[i]);
        }
        i += 1;
    }
    None
}

/// The names and declaration lines of the predicates, in order.
fn collect_pred_names(ps: &Vec<Predicate>) -> (r: (Vec<String>, Vec<usize>))
    ensures
        r.0@.map_values(|s: String| s@) == pred_names(ps@),
        r.1@ == ps@.map_values(|p: Predicate| p.position.line),
        r.0@.len() == r.1@.len(),
{
    let n = ps.len();
    let mut names: Vec<String> = Vec::new();
    let mut lines: Vec<usize> = Vec::new();
    let mut i: usize = 0;
    while i < n
        invariant
            n == ps@.len(),
            i <= n,
            names@.len() == i,
            lines@.len() == i,
            forall|k: int| 0 <= k < i ==> names@[k]@ == ps@[k].name@,
            forall|k: int| 0 <= k < i ==> lines@[k] == ps@[k].position.line,
        decreases n - i,
    {
        names.push(ps[i].name.clone());
        lines.push(ps[i].position.line);
        i += 1;
    }
    proof {
        assert(names@.map_values(|s: String| s@) =~= pred_names(ps@));
        assert(lines@ =~= ps@.map_values(|p: Predicate| p.position.line));
    }
    (names, lines)
}

/// The names and declaration lines of the compound tasks, in order.
fn collect_task_names(ts: &Vec<CompoundTask>) -> (r: (Vec<String>, Vec<usize>))
    ensures
        r.0@.map_values(|s: String| s@) == task_names(ts@),
        r.1@ == ts@.map_values(|t: CompoundTask| t.position.line),
        r.0@.len() == r.1@.len(),
{
    let n = ts.len();
    let mut names: Vec<String> = Vec::new();
    let mut lines: Vec<usize> = Vec::new();
    let mut i: usize = 0;
    while i < n
        invariant
            n == ts@.len(),
            i <= n,
            names@.len() == i,
            lines@.len() == i,
            forall|k: int| 0 <= k < i ==> names@[k]@ == ts@[k].name@,
            forall|k: int| 0 <= k < i ==> lines@[k] == ts@[k].position.line,
        decreases n - i,
    {
        names.push(ts[i].name.clone());
        lines.push(ts[i].position.line);
        i += 1;
    }
    proof {
        assert(names@.map_values(|s: String| s@) =~= task_names(ts@));
        assert(lines@ =~= ts@.map_values(|t: CompoundTask| t.position.line));
    }
    (names, lines)
}

/// The names and declaration lines of the actions, in order.
fn collect_action_names(az: &Vec<Action>) -> (r: (Vec<String>, Vec<usize>))
    ensures
        r.0@.map_values(|s: String| s@) == action_names(az@),
        r.1@ == az@.map_values(|a: Action| a.position.line),
        r.0@.len() == r.1@.len(),
{
    let n = az.len();
    let mut names: Vec<String> = Vec::new();
    let mut lines: Vec<usize> = Vec::new();
    let mut i: usize = 0;
    while i < n
        invariant
            n == az@.len(),
            i <= n,
            names@.len() == i,
            lines@.len() == i,
            forall|k: int| 0 <= k < i ==> names@[k]@ == az@[k].name@,
            forall|k: int| 0 <= k < i ==> lines@[k] == az@[k].position.line,
        decreases n - i,
    {
        names.push(az[i].name.clone());
        lines.push(az[i].position.line);
        i += 1;
    }
    proof {
        assert(names@.map_values(|s: String| s@) =~= action_names(az@));
        assert(lines@ =~= az@.map_values(|a: Action| a.position.line));
    }
    (names, lines)
}

/// The names and declaration lines of the methods, in order.
fn collect_method_names(ms: &Vec<Method>) -> (r: (Vec<String>, Vec<usize>))
    ensures
        r.0@.map_values(|s: String| s@) == method_names(ms@),
        r.1@ == ms@.map_values(|m: Method| m.position.line),
        r.0@.len() == r.1@.len(),
{
    let n = ms.len();
    let mut names: Vec<String> = Vec::new();
    let mut lines: Vec<usize> = Vec::new();
    let mut i: usize = 0;
    while i < n
        invariant
            n == ms@.len(),
            i <= n,
            names@.len() == i,
            lines@.len() == i,
            forall|k: int| 0 <= k < i ==> names@[k]@ == ms@[k].name@,
            forall|k: int| 0 <= k < i ==> lines@[k] == ms@[k].position.line,
        decreases n - i,
    {
        names.push(ms[i].name.clone());
        lines.push(ms[i].position.line);
        i += 1;
    }
    proof {
        assert(names@.map_values(|s: String| s@) =~= method_names(ms@));
        assert(lines@ =~= ms@.map_values(|m: Method| m.position.line));
    }
    (names, lines)
}

/// A domain the validator accepts satisfies everything the graph
/// builder assumes: task and action names each unique within their
/// category, every method decomposing a declared compound task, every
/// subtask invoking a declared symbol.  A verified caller may hand a
/// validated domain straight to the task decomposition graph.
pub proof fn lemma_valid_domain_tdg_ready(d: DomainAST)
    requires
        domain_ok(d),
    ensures
        crate::tdg::domain_tdg_ready(d),
{
    assert forall|i: int, j: int|
        #![trigger d.compound_tasks@[i], d.compound_tasks@[j]]
        0 <= i < j < d.compound_tasks@.len() implies d.compound_tasks@[i].name@
        != d.compound_tasks@[j].name@ by {
        assert(task_names(d.compound_tasks@)[i] != task_names(d.compound_tasks@)[j]);
    }
    assert forall|i: int, j: int|
        #![trigger d.actions@[i], d.actions@[j]]
        0 <= i < j < d.actions@.len() implies d.actions@[i].name@ != d.actions@[j].name@ by {
        assert(action_names(d.actions@)[i] != action_names(d.actions@)[j]);
    }
    assert forall|m: int| 0 <= m < d.methods@.len() implies crate::tdg::ast_has_task(
        d,
        (#[trigger] d.methods@[m]).task_name@,
    ) by {
        assert(method_task_full_ok(d, m));
        let t = choose|t: int|
            0 <= t < d.compound_tasks@.len() && (#[trigger] d.compound_tasks@[t]).name@
                == d.methods@[m].task_name@ && d.compound_tasks@[t].parameters@.len()
                == d.methods@[m].task_terms@.len() && (d.types is Some ==> forall|k: int|
                0 <= k < d.methods@[m].task_terms@.len() ==> compat(
                    spec_ts(d.types),
                    env_type(d.methods@[m].params@, (#[trigger] d.methods@[m].task_terms@[k]).name@),
                    opt_name_view(d.compound_tasks@[t].parameters@[k].var_type),
                ));
        assert(d.compound_tasks@[t].name@ == d.methods@[m].task_name@);
    }
    assert forall|m: int, j: int|
        0 <= m < d.methods@.len() && 0 <= j < d.methods@[m].tn.subtasks@.len()
            implies crate::tdg::ast_has_symbol(
        d,
        (#[trigger] d.methods@[m].tn.subtasks@[j]).task_symbol@,
    ) by {
        assert(subtask_declared(d, m, j));
    }
}

/// The object lines the problem records, or zeros where the recorded
/// lines do not pair up with the objects.
pub open spec fn problem_obj_lines(p: ProblemAST) -> Seq<usize> {
    if p.object_lines@.len() == p.objects@.len() {
        p.object_lines@
    } else {
        Seq::new(p.objects@.len(), |i: int| 0usize)
    }
}

/// What the problem-side verdict means: success exactly when object
/// names and requirement flags are duplicate-free, and each duplicate
/// error reporting the first repetition with its positions.
pub open spec fn problem_verdict_ok(p: ProblemAST, r: Result<(), SemanticErrorType>) -> bool {
    &&& (r is Ok <==> all_distinct(var_names(p.objects@)) && !has_dup_req(p.requirements@))
    &&& (match r {
        Ok(_) => true,
        Err(SemanticErrorType::DuplicateObjectDeclaration(e)) => reports_first_dup(
            var_names(p.objects@),
            problem_obj_lines(p),
            e,
        ),
        Err(SemanticErrorType::DuplicateRequirementDeclaration(rq)) => all_distinct(
            var_names(p.objects@),
        ) && reports_first_dup_req(p.requirements@, rq),
        Err(_) => false,
    })
}

/// The names of the objects, with the lines the problem recorded for
/// them (zeros where they do not pair up).
fn collect_object_names(p: &ProblemAST) -> (r: (Vec<String>, Vec<usize>))
    ensures
        r.0@.map_values(|s: String| s@) == var_names(p.objects@),
        r.1@ == problem_obj_lines(*p),
        r.0@.len() == r.1@.len(),
{
    let n = p.objects.len();
    let use_recorded = p.object_lines.len() == n;
    let mut names: Vec<String> = Vec::new();
    let mut lines: Vec<usize> = Vec::new();
    let mut i: usize = 0;
    while i < n
        invariant
            n == p.objects@.len(),
            use_recorded == (p.object_lines@.len() == p.objects@.len()),
            i <= n,
            names@.len() == i,
            lines@.len() == i,
            forall|k: int| 0 <= k < i ==> names@[k]@ == p.objects@[k].name@,
            forall|k: int| 0 <= k < i ==> lines@[k] == problem_obj_lines(*p)[k],
        decreases n - i,
    {
        names.push(p.objects[i].name.clone());
        if use_recorded {
            lines.push(p.object_lines[i]);
        } else {
            lines.push(0);
        }
        i += 1;
    }
    proof {
        assert(names@.map_values(|s: String| s@) =~= var_names(p.objects@));
        assert(lines@ =~= problem_obj_lines(*p));
    }
    (names, lines)
}

/// Every ground atom of the problem's initial state invokes a declared
/// predicate with its declared arity and, under typing, objects whose
/// declared types fit the parameters.
pub open spec fn init_state_ok(d: DomainAST, p: ProblemAST) -> bool {
    forall|i: int|
        0 <= i < p.init_state@.len() ==> atom_ok(
            d.predicates@,
            d.types is Some,
            spec_ts(d.types),
            p.objects@,
            #[trigger] p.init_state@[i],
        )
}

/// Validates a problem's initial state against the domain it
/// instantiates: every ground atom must invoke a declared predicate
/// with matching arity, and each object argument's declared type must
/// fit the parameter (assumes the domain passed validation, which makes
/// predicate names unique).
#[verifier::rlimit(60)]
pub fn check_init_state(d: &DomainAST, p: &ProblemAST) -> (r: Result<(), SemanticErrorType>)
    requires
        all_distinct(pred_names(d.predicates@)),
    ensures
        r is Ok <==> init_state_ok(*d, *p),
        (match r {
            Err(SemanticErrorType::UndefinedPredicate(u)) => pred_undeclared(
                d.predicates@,
                u.symbol@,
            ) && exists|i: int|
                0 <= i < p.init_state@.len() && (#[trigger] p.init_state@[i]).name@ == u.symbol@
                    && p.init_state@[i].position == u.position,
            Err(SemanticErrorType::InconsistentPredicateArity(a)) => a.expected_arity
                != a.found_arity && (exists|t: int|
                0 <= t < d.predicates@.len() && (#[trigger] d.predicates@[t]).name@ == a.symbol@
                    && d.predicates@[t].variables@.len() == a.expected_arity) && (exists|i: int|
                0 <= i < p.init_state@.len() && (#[trigger] p.init_state@[i]).name@ == a.symbol@
                    && p.init_state@[i].variables@.len() == a.found_arity
                    && p.init_state@[i].position == a.position),
            Err(SemanticErrorType::InconsistentPredicateArgType(e)) => d.types is Some && (exists|
                i: int,
            |
                0 <= i < p.init_state@.len() && arg_type_defect(
                    d.predicates@,
                    spec_ts(d.types),
                    p.objects@,
                    #[trigger] p.init_state@[i],
                    e,
                )),
            Err(_) => false,
            Ok(_) => true,
        }),
{
    let type_table: Option<(Vec<String>, Digraph)> = match &d.types {
        None => None,
        Some(ts) => {
            let (names, g) = build_type_graph(ts);
            let nlen = names.len();
            proof {
                assert(names@.len() == nlen);
                assert(table_for(ts@, names@, g));
            }
            Some((names, g))
        },
    };
    proof {
        assert(tt_matches(type_table, d.types));
    }
    let n_atoms = p.init_state.len();
    let mut i: usize = 0;
    while i < n_atoms
        invariant
            tt_matches(type_table, d.types),
            all_distinct(pred_names(d.predicates@)),
            n_atoms == p.init_state@.len(),
            i <= n_atoms,
            forall|i2: int|
                0 <= i2 < i ==> atom_ok(
                    d.predicates@,
                    d.types is Some,
                    spec_ts(d.types),
                    p.objects@,
                    #[trigger] p.init_state@[i2],
                ),
        decreases n_atoms - i,
    {
        let r = check_atom(
            &p.init_state[i],
            &p.objects,
            &d.predicates,
            &type_table,
            Ghost(spec_ts(d.types)),
        );
        if let Err(e) = r {
            proof {
                assert(!atom_ok(
                    d.predicates@,
                    d.types is Some,
                    spec_ts(d.types),
                    p.objects@,
                    p.init_state@[i as int],
                ));
                assert(!init_state_ok(*d, *p));
                match &e {
                    SemanticErrorType::UndefinedPredicate(u) => {
                        assert(p.init_state@[i as int].name@ == u.symbol@);
                    },
                    SemanticErrorType::InconsistentPredicateArity(a) => {
                        assert(p.init_state@[i as int].name@ == a.symbol@);
                    },
                    SemanticErrorType::InconsistentPredicateArgType(e2) => {
                        assert(arg_type_defect(
                            d.predicates@,
                            spec_ts(d.types),
                            p.objects@,
                            p.init_state@[i as int],
                            *e2,
                        ));
                    },
                    _ => {},
                }
            }
            return Err(e);
        }
        i += 1;
    }
    Ok(())
}

/// Validates either kind of definition: a domain through the full
/// pipeline, a problem through its object and requirement uniqueness
/// checks; both verdicts are exact.
pub fn verify_semantics(ast: &AbstractSyntaxTree) -> (r: Result<(), SemanticErrorType>)
    ensures
        (match *ast {
            AbstractSyntaxTree::Domain(dd) => domain_verdict_ok(dd, r),
            AbstractSyntaxTree::Problem(p) => problem_verdict_ok(p, r),
        }),
{
    match ast {
        AbstractSyntaxTree::Domain(d) => verify_domain_ast(d),
        AbstractSyntaxTree::Problem(p) => {
            let (o_names, o_lines) = collect_object_names(p);
            if let Some(e) = first_duplicate(&o_names, &o_lines) {
                proof {
                    assert(var_names(p.objects@) == o_names@.map_values(|s: String| s@));
                    let vn = var_names(p.objects@);
                    let (i, j) = choose|i: int, j: int|
                        #![trigger vn[i], vn[j]]
                        {
                            &&& 0 <= i < j < vn.len()
                            &&& vn[i] == vn[j]
                            &&& e.symbol@ == vn[j]
                        };
                    assert(!all_distinct(vn));
                }
                return Err(SemanticErrorType::DuplicateObjectDeclaration(e));
            }
            if let Some(rq) = first_duplicate_requirement(&p.requirements) {
                proof {
                    assert(has_dup_req(p.requirements@));
                }
                return Err(SemanticErrorType::DuplicateRequirementDeclaration(rq));
            }
            proof {
                assert(!has_dup_req(p.requirements@));
            }
            Ok(())
        },
    }
}

} // verus!
