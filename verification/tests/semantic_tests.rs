use hddl_analyzer::analyzer::{verify_semantics, DomainSemanticAnalyzer};
use hddl_analyzer::errors::SemanticErrorType;
use hddl_analyzer::lexer::LexicalAnalyzer;
use hddl_analyzer::metadata::{MetaData, RecursionType};
use hddl_analyzer::parser::Parser;
use hddl_analyzer::syntax_tree::AbstractSyntaxTree;
use hddl_analyzer::tdg::TDG;

fn parse_domain(program: &str) -> hddl_analyzer::syntax_tree::DomainAST {
    let lexer = LexicalAnalyzer::new(String::from(program).into_bytes());
    match Parser::new(lexer).parse() {
        Ok(AbstractSyntaxTree::Domain(d)) => d,
        _ => panic!("expected a domain"),
    }
}

fn verify(program: &str) -> Result<(), SemanticErrorType> {
    DomainSemanticAnalyzer::new(parse_domain(program)).verify_domain()
}

#[test]
pub fn type_hierarchy_dag_ok_test() {
    let r = verify(
        "(define (domain d1)
            (:types
                child middle2 - middle
                middle middle2b - top
            )
         ) ",
    );
    assert!(r.is_ok());
}

#[test]
pub fn type_hierarchy_cycle_test() {
    let r = verify(
        "(define (domain d1)
            (:types
                a - b
                b - c
                c - a
            )
         ) ",
    );
    match r {
        Err(SemanticErrorType::CyclicTypeDeclaration(nm)) => {
            assert!(nm == "a" || nm == "b" || nm == "c");
        }
        _ => panic!("cycle not caught"),
    }
}

#[test]
pub fn type_hierarchy_self_parent_test() {
    let r = verify(
        "(define (domain d1)
            (:types a - a)
         ) ",
    );
    match r {
        Err(SemanticErrorType::CyclicTypeDeclaration(nm)) => {
            assert_eq!(nm, "a");
        }
        _ => panic!("self-parenting not caught"),
    }
}

#[test]
pub fn undefined_type_test() {
    let r = verify(
        "(define (domain d1)
            (:types a - b)
            (:predicates (p_1 ?x - nowhere))
         ) ",
    );
    match r {
        Err(SemanticErrorType::UndefinedType(nm)) => {
            assert_eq!(nm, "nowhere");
        }
        _ => panic!("undefined type not caught"),
    }
}

#[test]
pub fn undefined_predicate_test() {
    let r = verify(
        "(define (domain d1)
            (:predicates (p_1 ?x))
            (:action a_1
             :parameters (?y)
             :precondition (p_missing ?y)
            )
         ) ",
    );
    match r {
        Err(SemanticErrorType::UndefinedPredicate(e)) => {
            assert_eq!(e.symbol, "p_missing");
        }
        _ => panic!("undefined predicate not caught"),
    }
}

#[test]
pub fn predicate_arity_test() {
    let r = verify(
        "(define (domain d1)
            (:predicates (p_1 ?x ?y))
            (:action a_1
             :parameters (?z)
             :precondition (p_1 ?z)
            )
         ) ",
    );
    match r {
        Err(SemanticErrorType::InconsistentPredicateArity(e)) => {
            assert_eq!(e.symbol, "p_1");
            assert_eq!(e.expected_arity, 2);
            assert_eq!(e.found_arity, 1);
        }
        _ => panic!("arity mismatch not caught"),
    }
}

#[test]
pub fn subtype_argument_accepted_test() {
    // a subtype argument where a supertype parameter is declared is accepted
    let r = verify(
        "(define (domain d1)
            (:types child - parent)
            (:predicates (p_1 ?x - parent))
            (:action a_1
             :parameters (?c - child)
             :precondition (p_1 ?c)
            )
         ) ",
    );
    assert!(r.is_ok());
}

#[test]
pub fn incompatible_argument_type_test() {
    let r = verify(
        "(define (domain d1)
            (:types child - parent other - parent)
            (:predicates (p_1 ?x - child))
            (:action a_1
             :parameters (?c - other)
             :precondition (p_1 ?c)
            )
         ) ",
    );
    match r {
        Err(SemanticErrorType::InconsistentPredicateArgType(e)) => {
            assert_eq!(e.var_name, "c");
            assert_eq!(e.expected.as_deref(), Some("child"));
            assert_eq!(e.found.as_deref(), Some("other"));
        }
        _ => panic!("type mismatch not caught"),
    }
}

#[test]
pub fn undefined_task_test() {
    let r = verify(
        "(define (domain d1)
            (:method m_1
             :parameters (?x)
             :task (ghost_task ?x)
             :subtasks ()
            )
         ) ",
    );
    match r {
        Err(SemanticErrorType::UndefinedTask(nm)) => {
            assert_eq!(nm, "ghost_task");
        }
        _ => panic!("undefined task not caught"),
    }
}

#[test]
pub fn task_arity_test() {
    let r = verify(
        "(define (domain d1)
            (:task t_1 :parameters (?a ?b))
            (:method m_1
             :parameters (?x)
             :task (t_1 ?x)
             :subtasks ()
            )
         ) ",
    );
    match r {
        Err(SemanticErrorType::InconsistentTaskArity(e)) => {
            assert_eq!(e.symbol, "t_1");
            assert_eq!(e.expected_arity, 2);
            assert_eq!(e.found_arity, 1);
        }
        _ => panic!("task arity mismatch not caught"),
    }
}

#[test]
pub fn undefined_subtask_test() {
    let r = verify(
        "(define (domain d1)
            (:task t_1 :parameters (?a))
            (:method m_1
             :parameters (?x)
             :task (t_1 ?x)
             :subtasks (and (nowhere ?x))
            )
         ) ",
    );
    match r {
        Err(SemanticErrorType::UndefinedSubtask(nm)) => {
            assert_eq!(nm, "nowhere");
        }
        _ => panic!("undefined subtask not caught"),
    }
}

#[test]
pub fn cyclic_ordering_test() {
    let r = verify(
        "(define (domain d1)
            (:task t_1 :parameters (?a))
            (:action a_1 :parameters (?x))
            (:method m_1
             :parameters (?x)
             :task (t_1 ?x)
             :subtasks (and
                (s1 (a_1 ?x))
                (s2 (a_1 ?x))
             )
             :ordering (and
                (< s1 s2)
                (< s2 s1)
             )
            )
         ) ",
    );
    match r {
        Err(SemanticErrorType::CyclicOrderingDeclaration(nm)) => {
            assert!(nm == "s1" || nm == "s2");
        }
        _ => panic!("cyclic ordering not caught"),
    }
}

#[test]
pub fn acyclic_ordering_ok_test() {
    let r = verify(
        "(define (domain d1)
            (:task t_1 :parameters (?a))
            (:action a_1 :parameters (?x))
            (:method m_1
             :parameters (?x)
             :task (t_1 ?x)
             :subtasks (and
                (s1 (a_1 ?x))
                (s2 (a_1 ?x))
             )
             :ordering (and
                (< s1 s2)
             )
            )
         ) ",
    );
    assert!(r.is_ok());
}

#[test]
pub fn verify_semantics_problem_duplicate_objects_test() {
    let program = "(define (problem p1) (domain bal)
                      (:objects a b c - d b - f t)
                   )";
    let lexer = LexicalAnalyzer::new(String::from(program).into_bytes());
    let ast = Parser::new(lexer).parse().unwrap();
    match verify_semantics(&ast) {
        Err(SemanticErrorType::DuplicateObjectDeclaration(e)) => {
            assert_eq!(e.symbol, "b");
        }
        _ => panic!("duplicate object not caught"),
    }
}

#[test]
pub fn verify_semantics_domain_ok_test() {
    let program = "(define (domain bal)
            (:task t_1 :parameters (?a))
            (:action a_1 :parameters (?x))
            (:method m_1
             :parameters (?x)
             :task (t_1 ?x)
             :ordered-subtasks (and (a_1 ?x))
            )
         ) ";
    let lexer = LexicalAnalyzer::new(String::from(program).into_bytes());
    let ast = Parser::new(lexer).parse().unwrap();
    assert!(verify_semantics(&ast).is_ok());
}

#[test]
pub fn nullables_idempotent_test() {
    // re-running the fixpoint over the same tables yields the same set
    let d = parse_domain(
        "(define (domain bal)
            (:task abs_1 :parameters (?a))
            (:task abs_2 :parameters (?a))
            (:method m_1
                :parameters (?p1)
                :task (abs_1 ?p1)
                :ordered-subtasks (and (abs_2 ?p1))
            )
            (:method m_2
                :parameters (?p1)
                :task (abs_2 ?p1)
                :ordered-subtasks ()
            )
        ) ",
    );
    let tdg = TDG::new(&d);
    let first = tdg.compute_nullables();
    let second = tdg.compute_nullables();
    assert_eq!(first.len(), second.len());
    for nm in &first {
        assert!(second.contains(nm));
    }
    assert_eq!(first.len(), 2);
    assert!(first.contains(&String::from("abs_1")));
    assert!(first.contains(&String::from("abs_2")));
}

#[test]
pub fn never_nullable_test() {
    // a task whose every method keeps a non-nullable subtask is never nullable
    let d = parse_domain(
        "(define (domain bal)
            (:action p_1 :parameters (?x))
            (:task abs_1 :parameters (?a))
            (:method m_1
                :parameters (?p1)
                :task (abs_1 ?p1)
                :ordered-subtasks (and (p_1 ?p1))
            )
        ) ",
    );
    let tdg = TDG::new(&d);
    let nullables = tdg.compute_nullables();
    assert_eq!(nullables.len(), 0);
}

#[test]
pub fn empty_recursion_test() {
    // a method that is exactly the recursive call
    let d = parse_domain(
        "(define (domain bal)
            (:task abs_1 :parameters (?a))
            (:method m_1
                :parameters (?p1)
                :task (abs_1 ?p1)
                :ordered-subtasks (and (abs_1 ?p1))
            )
        ) ",
    );
    let tdg = TDG::new(&d);
    let nullables = tdg.compute_nullables();
    assert_eq!(tdg.get_recursion_type(&nullables), RecursionType::EmptyRecursion);
}

#[test]
pub fn reachable_isolated_task_test() {
    // a compound task no method decomposes reaches only itself
    let d = parse_domain(
        "(define (domain bal)
            (:task abs_1 :parameters (?a))
            (:task abs_2 :parameters (?a))
        ) ",
    );
    let tdg = TDG::new(&d);
    let r = tdg.reachable(&String::from("abs_2"));
    assert_eq!(r.len(), 1);
    assert!(r.contains(&String::from("abs_2")));
}

#[test]
pub fn metadata_fields_test() {
    let d = parse_domain(
        "(define (domain bal)
            (:task abs_1 :parameters (?a))
            (:method m_1
                :parameters (?p1)
                :task (abs_1 ?p1)
                :ordered-subtasks ()
            )
        ) ",
    );
    let name = d.name.clone();
    let tdg = TDG::new(&d);
    let nullables = tdg.compute_nullables();
    let recursion = tdg.get_recursion_type(&nullables);
    let meta = MetaData { recursion, nullables, domain_name: name };
    assert_eq!(meta.domain_name, "bal");
    assert_eq!(meta.recursion, RecursionType::NonRecursive);
    assert_eq!(meta.nullables, vec![String::from("abs_1")]);
}

#[test]
pub fn lexer_rejects_unknown_section_test() {
    let program = "(define (domain bal) (:bogus x) )";
    let lexer = LexicalAnalyzer::new(String::from(program).into_bytes());
    assert!(Parser::new(lexer).parse().is_err());
}

#[test]
pub fn variable_new_test() {
    let v = hddl_analyzer::syntax_tree::Variable::new(
        String::from("x"),
        Some(String::from("loc")),
    );
    assert_eq!(v.name, "x");
    assert_eq!(v.var_type.as_deref(), Some("loc"));
}

#[test]
pub fn parse_args_groups_types_test() {
    // the typed-list parser assigns the following dash type to the whole group
    let program = "(define (problem p1) (domain bal) (:objects x y - t1 z) )";
    let lexer = LexicalAnalyzer::new(String::from(program).into_bytes());
    match Parser::new(lexer).parse() {
        Ok(AbstractSyntaxTree::Problem(p)) => {
            assert_eq!(p.objects.len(), 3);
            assert_eq!(p.objects[0].var_type.as_deref(), Some("t1"));
            assert_eq!(p.objects[1].var_type.as_deref(), Some("t1"));
            assert_eq!(p.objects[2].var_type, None);
        }
        _ => panic!("parsing errors"),
    }
}

#[test]
pub fn task_argument_type_test() {
    let r = verify(
        "(define (domain d1)
            (:types child - parent other - parent)
            (:task t_1 :parameters (?a - child))
            (:method m_1
             :parameters (?x - other)
             :task (t_1 ?x)
             :subtasks ()
            )
         ) ",
    );
    match r {
        Err(SemanticErrorType::InconsistentTaskArgType(e)) => {
            assert_eq!(e.var_name, "x");
            assert_eq!(e.expected.as_deref(), Some("child"));
            assert_eq!(e.found.as_deref(), Some("other"));
        }
        _ => panic!("task argument type mismatch not caught"),
    }
}

#[test]
pub fn task_argument_subtype_accepted_test() {
    let r = verify(
        "(define (domain d1)
            (:types child - parent)
            (:task t_1 :parameters (?a - parent))
            (:method m_1
             :parameters (?x - child)
             :task (t_1 ?x)
             :subtasks ()
            )
         ) ",
    );
    assert!(r.is_ok());
}

#[test]
pub fn reachable_with_edge_grows_test() {
    // a task with a method reaching another symbol reaches more than itself
    let d = parse_domain(
        "(define (domain bal)
            (:action p_1 :parameters (?x))
            (:task abs_1 :parameters (?a))
            (:method m_1
                :parameters (?p1)
                :task (abs_1 ?p1)
                :ordered-subtasks (and (p_1 ?p1))
            )
        ) ",
    );
    let tdg = TDG::new(&d);
    let r = tdg.reachable(&String::from("abs_1"));
    assert_eq!(r.len(), 2);
    assert!(r.contains(&String::from("abs_1")));
    assert!(r.contains(&String::from("p_1")));
}

#[test]
pub fn quantified_precondition_env_test() {
    // variables bound by a quantifier take part in type checking
    let r = verify(
        "(define (domain d1)
            (:types child - parent)
            (:predicates (p_1 ?x - parent))
            (:action a_1
             :parameters (?y)
             :precondition (forall (?c - child) (p_1 ?c))
            )
         ) ",
    );
    assert!(r.is_ok());
}

#[test]
pub fn quantified_precondition_mismatch_test() {
    let r = verify(
        "(define (domain d1)
            (:types child - parent other - parent)
            (:predicates (p_1 ?x - child))
            (:action a_1
             :parameters (?y)
             :precondition (exists (?c - other) (p_1 ?c))
            )
         ) ",
    );
    match r {
        Err(SemanticErrorType::InconsistentPredicateArgType(e)) => {
            assert_eq!(e.var_name, "c");
        }
        _ => panic!("bound-variable type mismatch not caught"),
    }
}

#[test]
pub fn task_action_shared_name_test() {
    // name uniqueness holds per category: a task and an action may
    // share a name, and the decomposition graph then merges them into
    // one node (the node set is a set of symbols)
    let program = "(define (domain d1)
            (:task walk :parameters (?a))
            (:action walk :parameters (?x))
            (:task go :parameters (?a))
            (:method m_1
             :parameters (?x)
             :task (go ?x)
             :ordered-subtasks (and (walk ?x))
            )
         ) ";
    let d = parse_domain(program);
    assert!(DomainSemanticAnalyzer::new(parse_domain(program)).verify_domain().is_ok());
    let tdg = TDG::new(&d);
    let r = tdg.reachable(&String::from("go"));
    assert_eq!(r.len(), 2);
    assert!(r.contains(&String::from("go")));
    assert!(r.contains(&String::from("walk")));
    let walk = tdg.reachable(&String::from("walk"));
    assert_eq!(walk.len(), 1);
}

#[test]
pub fn type_stage_runs_first_test() {
    // the type hierarchy checker runs before the duplicate validator
    let r = verify(
        "(define (domain d1)
            (:requirements :hierarchy :hierarchy)
            (:types a - a)
         ) ",
    );
    match r {
        Err(SemanticErrorType::CyclicTypeDeclaration(nm)) => {
            assert_eq!(nm, "a");
        }
        _ => panic!("type stage did not run first"),
    }
}

#[test]
pub fn duplicate_object_positions_test() {
    let program = "(define (problem p1) (domain bal)
                      (:objects a
                                b c - d
                                b - f t)
                   )";
    let lexer = LexicalAnalyzer::new(String::from(program).into_bytes());
    let ast = Parser::new(lexer).parse().unwrap();
    match verify_semantics(&ast) {
        Err(SemanticErrorType::DuplicateObjectDeclaration(e)) => {
            assert_eq!(e.symbol, "b");
            assert_eq!(e.first_pos.line, 3);
            assert_eq!(e.second_pos.line, 4);
        }
        _ => panic!("duplicate object not caught"),
    }
}

fn parse_problem(program: &str) -> hddl_analyzer::syntax_tree::ProblemAST {
    let lexer = LexicalAnalyzer::new(String::from(program).into_bytes());
    match Parser::new(lexer).parse() {
        Ok(AbstractSyntaxTree::Problem(p)) => p,
        _ => panic!("expected a problem"),
    }
}

#[test]
pub fn init_state_ok_test() {
    let d = parse_domain(
        "(define (domain d1)
            (:types box - obj)
            (:predicates (at ?x - obj))
         ) ",
    );
    let p = parse_problem(
        "(define (problem p1) (domain d1)
            (:objects b1 - box)
            (:init (at b1))
         ) ",
    );
    assert!(hddl_analyzer::analyzer::check_init_state(&d, &p).is_ok());
}

#[test]
pub fn init_state_undefined_predicate_test() {
    let d = parse_domain(
        "(define (domain d1)
            (:predicates (at ?x))
         ) ",
    );
    let p = parse_problem(
        "(define (problem p1) (domain d1)
            (:objects b1)
            (:init (holding b1))
         ) ",
    );
    match hddl_analyzer::analyzer::check_init_state(&d, &p) {
        Err(SemanticErrorType::UndefinedPredicate(u)) => {
            assert_eq!(u.symbol, "holding");
            assert_eq!(u.position.line, 3);
        }
        _ => panic!("undefined init predicate not caught"),
    }
}

#[test]
pub fn init_state_arity_test() {
    let d = parse_domain(
        "(define (domain d1)
            (:predicates (at ?x ?y))
         ) ",
    );
    let p = parse_problem(
        "(define (problem p1) (domain d1)
            (:objects b1)
            (:init (at b1))
         ) ",
    );
    match hddl_analyzer::analyzer::check_init_state(&d, &p) {
        Err(SemanticErrorType::InconsistentPredicateArity(a)) => {
            assert_eq!(a.symbol, "at");
            assert_eq!(a.expected_arity, 2);
            assert_eq!(a.found_arity, 1);
            assert_eq!(a.position.line, 3);
        }
        _ => panic!("init arity mismatch not caught"),
    }
}

#[test]
pub fn init_state_object_type_test() {
    let d = parse_domain(
        "(define (domain d1)
            (:types box other - obj)
            (:predicates (at ?x - box))
         ) ",
    );
    let p = parse_problem(
        "(define (problem p1) (domain d1)
            (:objects b1 - other)
            (:init (at b1))
         ) ",
    );
    match hddl_analyzer::analyzer::check_init_state(&d, &p) {
        Err(SemanticErrorType::InconsistentPredicateArgType(e)) => {
            assert_eq!(e.var_name, "b1");
            assert_eq!(e.expected.as_deref(), Some("box"));
            assert_eq!(e.found.as_deref(), Some("other"));
        }
        _ => panic!("init object type mismatch not caught"),
    }
}
