use hddl_analyzer::lexer::LexicalAnalyzer;
use hddl_analyzer::metadata::RecursionType;
use hddl_analyzer::parser::Parser;
use hddl_analyzer::syntax_tree::{AbstractSyntaxTree, DomainAST, ProblemAST};
use hddl_analyzer::tdg::TDG;

fn parse_domain(program: &str) -> DomainAST {
    let lexer = LexicalAnalyzer::new(String::from(program).into_bytes());
    let parser = Parser::new(lexer);
    match parser.parse() {
        Ok(AbstractSyntaxTree::Domain(d)) => d,
        _ => panic!("expected a domain"),
    }
}

fn parse_problem(program: &str) -> ProblemAST {
    let lexer = LexicalAnalyzer::new(String::from(program).into_bytes());
    let parser = Parser::new(lexer);
    match parser.parse() {
        Ok(AbstractSyntaxTree::Problem(p)) => p,
        _ => panic!("expected a problem"),
    }
}

#[test]
pub fn tdg_correctness_test() {
    let program = "(define (domain bal)
            (:predicates
                (at ?l)
            )
            (:action p_1
            :parameters(?l1)
            :precondition (at ?l1)
            )
            (:action p_2
            :parameters(?l1)
            :precondition (at ?l1)
            )
            (:task abs_1 :parameters(?a))
            (:task abs_2 :parameters(?a))
            (:task abs_3 :parameters(?a))

            (:method m_1
                :parameters (?p1)
                :task (abs_1 ?p1)
                :ordered-subtasks (and
                    (t1 (abs_1 ?p1))
                    (t2 (abs_2 ?p1))
                    (t3 (abs_3 ?p1))
                    (t4 (p_1 ?p1))
                )
            )
        ) ";
    let problem = "
        (define (problem p-1-2-2)
            (:domain barman_htn)
            (:htn
                :parameters ()
                :ordered-subtasks (and
                    (abs_1)
                )
            )
    ";
    let d = parse_domain(program);
    let _p_ast = parse_problem(problem);
    let tdg = TDG::new(&d);
    let reachable_abs_1 = tdg.reachable(&String::from("abs_1"));
    assert_eq!(reachable_abs_1.len(), 4);
    assert_eq!(reachable_abs_1.contains(&String::from("abs_1")), true);
    assert_eq!(reachable_abs_1.contains(&String::from("abs_2")), true);
    assert_eq!(reachable_abs_1.contains(&String::from("abs_3")), true);
    assert_eq!(reachable_abs_1.contains(&String::from("p_1")), true);

    let reachable_p_2 = tdg.reachable(&String::from("p_2"));
    assert_eq!(reachable_p_2.len(), 1);
    assert_eq!(reachable_p_2.contains(&String::from("p_2")), true);
}

#[test]
pub fn tdg_non_recursive_test() {
    let program = "(define (domain bal)
            (:predicates
                (at ?l)
            )
            (:action p_1
            :parameters(?l1)
            :precondition (at ?l1)
            )
            (:action p_2
            :parameters(?l1)
            :precondition (at ?l1)
            )
            (:task abs_1 :parameters(?a))
            (:task abs_2 :parameters(?a))
            (:task abs_3 :parameters(?a))

            (:method m_1
                :parameters (?p1)
                :task (abs_1 ?p1)
                :ordered-subtasks (and
                    (t2 (abs_2 ?p1))
                    (t3 (abs_3 ?p1))
                    (t4 (p_1 ?p1))
                )
            )
        ) ";
    let problem = "
        (define (problem p-1-2-2)
            (:domain barman_htn)
            (:htn
                :parameters ()
                :ordered-subtasks (and
                    (abs_1)
                )
            )
    ";
    let d = parse_domain(program);
    let _p_ast = parse_problem(problem);
    let tdg = TDG::new(&d);
    let nullables = tdg.compute_nullables();
    assert_eq!(tdg.get_recursion_type(&nullables), RecursionType::NonRecursive)
}

#[test]
pub fn tdg_recursive_test() {
    let program = "(define (domain bal)
            (:predicates
                (at ?l)
            )
            (:action p_1
            :parameters(?l1)
            :precondition (at ?l1)
            )
            (:action p_2
            :parameters(?l1)
            :precondition (at ?l1)
            )
            (:task abs_1 :parameters(?a))
            (:task abs_2 :parameters(?a))
            (:task abs_3 :parameters(?a))

            (:method m_1
                :parameters (?p1)
                :task (abs_1 ?p1)
                :ordered-subtasks (and
                    (t0 (p_2 ?p1))
                    (t1 (abs_2 ?p1))
                    (t2 (abs_3 ?p1))
                    (t3 (abs_1 ?p1))
                    (t4 (p_1 ?p1))
                )
            )
        ) ";
    let problem = "
        (define (problem p-1-2-2)
            (:domain barman_htn)
            (:htn
                :parameters ()
                :ordered-subtasks (and
                    (abs_1)
                )
            )
    ";
    let d = parse_domain(program);
    let _p_ast = parse_problem(problem);
    let tdg = TDG::new(&d);
    let nullables = tdg.compute_nullables();
    assert_eq!(tdg.get_recursion_type(&nullables), RecursionType::Recursive)
}

#[test]
pub fn tdg_grow_and_shrink_cycle_test() {
    let program = "(define (domain bal)
            (:predicates
                (at ?l)
            )
            (:action p_1
            :parameters(?l1)
            :precondition (at ?l1)
            )
            (:action p_2
            :parameters(?l1)
            :precondition (at ?l1)
            )
            (:task abs_1 :parameters(?a))
            (:task abs_2 :parameters(?a))
            (:task abs_3 :parameters(?a))

            (:method m_1
                :parameters (?p1)
                :task (abs_1 ?p1)
                :ordered-subtasks (and
                    (t0 (abs_3 ?p1))
                    (t1 (abs_1 ?p1))
                    (t2 (abs_3 ?p1))
                    (t3 (abs_3 ?p1))
                )
            )

            (:method m_2
                :parameters (?p1)
                :task (abs_3 ?p1)
                :ordered-subtasks ()
            )
        ) ";
    let problem = "
        (define (problem p-1-2-2)
            (:domain barman_htn)
            (:htn
                :parameters ()
                :ordered-subtasks (and
                    (abs_1)
                )
            )
    ";
    let d = parse_domain(program);
    let _p_ast = parse_problem(problem);
    let tdg = TDG::new(&d);
    let nullables = tdg.compute_nullables();
    assert_eq!(tdg.get_recursion_type(&nullables), RecursionType::GrowAndShrinkRecursion)
}

#[test]
pub fn tdg_growing_cycle_test() {
    let program = "(define (domain bal)
            (:predicates
                (at ?l)
            )
            (:action p_1
            :parameters(?l1)
            :precondition (at ?l1)
            )
            (:action p_2
            :parameters(?l1)
            :precondition (at ?l1)
            )
            (:task abs_1 :parameters(?a))
            (:task abs_2 :parameters(?a))
            (:task abs_3 :parameters(?a))

            (:method m_1
                :parameters (?p1)
                :task (abs_1 ?p1)
                :ordered-subtasks (and
                    (t1 (abs_1 ?p1))
                    (t2 (abs_3 ?p1))
                    (t3 (abs_1 ?p1))
                    (t4 (p_1 ?p1))
                )
            )

            (:method m_2
                :parameters (?p1)
                :task (abs_3 ?p1)
                :ordered-subtasks (and
                    (t1 (p_1 ?p2))
                    (t2 (p_1 ?p2))
                )
            )
        ) ";
    let problem = "
        (define (problem p-1-2-2)
            (:domain barman_htn)
            (:htn
                :parameters ()
                :ordered-subtasks (and
                    (abs_1)
                )
            )
    ";
    let d = parse_domain(program);
    let _p_ast = parse_problem(problem);
    let tdg = TDG::new(&d);
    let nullables = tdg.compute_nullables();
    assert_eq!(tdg.get_recursion_type(&nullables), RecursionType::GrowingEmptyPrefixRecursion)
}

#[test]
pub fn tdg_nullables_test() {
    let program = "(define (domain bal)
            (:predicates
                (at ?l)
            )
            (:action p_1
            :parameters(?l1)
            :precondition (at ?l1)
            )
            (:action p_2
            :parameters(?l1)
            :precondition (at ?l1)
            )
            (:task abs_1 :parameters(?a))
            (:task abs_2 :parameters(?a))
            (:task abs_3 :parameters(?a))

            (:method m_1
                :parameters (?p1)
                :task (abs_1 ?p1)
                :ordered-subtasks (and
                    (t0 (abs_3 ?p1))
                    (t1 (abs_2 ?p1))
                    (t2 (abs_3 ?p1))
                    (t3 (abs_3 ?p1))
                )
            )

            (:method m_2
                :parameters (?p1)
                :task (abs_2 ?p1)
                :ordered-subtasks ()
            )

            (:method m_3
                :parameters (?p1)
                :task (abs_3 ?p1)
                :ordered-subtasks (
                    abs_2 ?p1
                )
            )

            (:method m_3
                :parameters (?1)
                :task (abs_3 ?p1)
                :ordered-subtasks (and
                    (p_1 ?l1)
                    (p_2 ?l1)
                )
            )
        ) ";
    let problem = "
        (define (problem p-1-2-2)
            (:domain barman_htn)
            (:htn
                :parameters ()
                :ordered-subtasks (and
                    (abs_1)
                )
            )
    ";
    let d = parse_domain(program);
    let _p_ast = parse_problem(problem);
    let tdg = TDG::new(&d);
    let nullables = tdg.compute_nullables();
    assert_eq!(nullables.len(), 3);
    assert!(nullables.contains(&String::from("abs_1")));
    assert!(nullables.contains(&String::from("abs_2")));
    assert!(nullables.contains(&String::from("abs_3")));
}
