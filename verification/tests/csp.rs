use classic_computer_science_problems::csp::{Constraint, CSP};
use std::collections::HashMap;

#[derive(Clone)]
struct Differ {
    left: &'static str,
    right: &'static str,
}

impl Constraint<&'static str, i32> for Differ {
    fn scope(&self) -> vstd::seq::Seq<&'static str> {
        unreachable!()
    }

    fn holds(&self, _assignment: vstd::map::Map<&'static str, i32>) -> bool {
        unreachable!()
    }

    fn variables(&self) -> Vec<&'static str> {
        vec![self.left, self.right]
    }

    fn is_satisfied(&self, assignment: &HashMap<&'static str, i32>) -> bool {
        match (assignment.get(self.left), assignment.get(self.right)) {
            (Some(a), Some(b)) => a != b,
            _ => true,
        }
    }
}

fn problem(variables: Vec<&'static str>, values: Vec<i32>) -> CSP<&'static str, i32, Differ> {
    let mut domains = HashMap::new();
    for v in &variables {
        domains.insert(*v, values.clone());
    }
    CSP::new(variables, domains).unwrap()
}

#[test]
fn two_variables_that_must_differ_get_different_values() {
    let mut csp = problem(vec!["A", "B"], vec![1, 2]);
    assert_eq!(csp.add_constraint(Differ { left: "A", right: "B" }), Ok(()));
    let found = csp.backtracking_search().unwrap();
    assert_eq!(found.len(), 2);
    assert_ne!(found["A"], found["B"]);
    assert_eq!(found["A"], 1);
    assert_eq!(found["B"], 2);
}

#[test]
fn variable_that_must_differ_from_itself_has_no_solution() {
    let mut csp = problem(vec!["A"], vec![1]);
    assert_eq!(csp.add_constraint(Differ { left: "A", right: "A" }), Ok(()));
    assert!(csp.backtracking_search().is_none());
}

#[test]
fn two_variables_sharing_one_value_have_no_solution() {
    let mut csp = problem(vec!["A", "B"], vec![1]);
    csp.add_constraint(Differ { left: "A", right: "B" }).unwrap();
    assert!(csp.backtracking_search().is_none());
}

#[test]
fn search_goes_back_to_an_earlier_variable() {
    // A = 1 fits at first and fails later: B and C cannot both differ from each other and from A
    // with the values 1 and 2 only, unless A takes 3.
    let mut domains = HashMap::new();
    domains.insert("A", vec![1, 3]);
    domains.insert("B", vec![1, 2]);
    domains.insert("C", vec![1, 2]);
    let mut csp: CSP<&'static str, i32, Differ> = CSP::new(vec!["A", "B", "C"], domains).unwrap();
    csp.add_constraint(Differ { left: "A", right: "B" }).unwrap();
    csp.add_constraint(Differ { left: "A", right: "C" }).unwrap();
    csp.add_constraint(Differ { left: "B", right: "C" }).unwrap();
    let found = csp.backtracking_search().unwrap();
    assert_eq!(found["A"], 3);
    assert_eq!(found["B"], 1);
    assert_eq!(found["C"], 2);
}

#[test]
fn solution_covers_every_variable_and_meets_every_constraint() {
    let names = vec!["WA", "NT", "SA", "Q", "NSW", "V", "T"];
    let mut csp = problem(names.clone(), vec![1, 2, 3]);
    let borders = [
        ("WA", "NT"),
        ("WA", "SA"),
        ("SA", "NT"),
        ("Q", "NT"),
        ("Q", "SA"),
        ("Q", "NSW"),
        ("NSW", "SA"),
        ("V", "SA"),
        ("V", "NSW"),
        ("V", "T"),
    ];
    for (left, right) in borders {
        csp.add_constraint(Differ { left, right }).unwrap();
    }
    let found = csp.backtracking_search().unwrap();
    assert_eq!(found.len(), names.len());
    for name in &names {
        assert!([1, 2, 3].contains(&found[name]));
        for constraint in &csp.constraints[name] {
            assert!(constraint.is_satisfied(&found));
        }
    }
    for (left, right) in borders {
        assert_ne!(found[left], found[right]);
    }
}

#[test]
fn problem_without_constraints_takes_the_first_value_of_each_domain() {
    let csp = problem(vec!["A", "B"], vec![5, 6]);
    let found = csp.backtracking_search().unwrap();
    assert_eq!(found["A"], 5);
    assert_eq!(found["B"], 5);
}

#[test]
fn problem_without_variables_has_the_empty_solution() {
    let csp = problem(vec![], vec![]);
    assert_eq!(csp.backtracking_search(), Some(HashMap::new()));
}

#[test]
fn variable_with_an_empty_domain_has_no_solution() {
    let csp = problem(vec!["A"], vec![]);
    assert!(csp.backtracking_search().is_none());
}

#[test]
fn new_fails_when_a_variable_has_no_domain() {
    let mut domains = HashMap::new();
    domains.insert("A", vec![1]);
    let result: Result<CSP<&'static str, i32, Differ>, &'static str> = CSP::new(vec!["A", "B"], domains);
    assert_eq!(result.err(), Some("Every variable should have a domain assigned to it."));
}

#[test]
fn new_gives_every_variable_an_empty_list_of_constraints() {
    let csp = problem(vec!["A", "B"], vec![1]);
    assert_eq!(csp.variables, vec!["A", "B"]);
    assert_eq!(csp.constraints.len(), 2);
    assert!(csp.constraints["A"].is_empty());
    assert!(csp.constraints["B"].is_empty());
    assert_eq!(csp.domains["A"], vec![1]);
}

#[test]
fn add_constraint_fails_on_an_unknown_variable_and_changes_nothing() {
    let mut csp = problem(vec!["A", "B"], vec![1, 2]);
    let result = csp.add_constraint(Differ { left: "A", right: "Z" });
    assert_eq!(result, Err("Variable in constraint is not in CSP"));
    assert!(csp.constraints["A"].is_empty());
    assert!(csp.constraints["B"].is_empty());
}

#[test]
fn add_constraint_attaches_to_every_variable_named() {
    let mut csp = problem(vec!["A", "B", "C"], vec![1, 2]);
    csp.add_constraint(Differ { left: "A", right: "B" }).unwrap();
    assert_eq!(csp.constraints["A"].len(), 1);
    assert_eq!(csp.constraints["B"].len(), 1);
    assert_eq!(csp.constraints["C"].len(), 0);
    csp.add_constraint(Differ { left: "C", right: "C" }).unwrap();
    assert_eq!(csp.constraints["C"].len(), 2);
}

#[test]
fn is_consistent_checks_the_constraints_of_one_variable() {
    let mut csp = problem(vec!["A", "B"], vec![1, 2]);
    csp.add_constraint(Differ { left: "A", right: "B" }).unwrap();
    let mut assignment = HashMap::new();
    assignment.insert("A", 1);
    assert!(csp.is_consistent("A", &assignment));
    assignment.insert("B", 1);
    assert!(!csp.is_consistent("B", &assignment));
    assignment.insert("B", 2);
    assert!(csp.is_consistent("B", &assignment));
}

#[test]
fn search_with_a_full_assignment_returns_it() {
    let mut csp = problem(vec!["A", "B"], vec![1, 2]);
    csp.add_constraint(Differ { left: "A", right: "B" }).unwrap();
    let mut assignment = HashMap::new();
    assignment.insert("A", 2);
    assignment.insert("B", 1);
    assert_eq!(csp.backtracking_search_with_assignment(assignment.clone()), Some(assignment));
}

#[test]
fn search_with_a_partial_assignment_extends_it() {
    let mut csp = problem(vec!["A", "B"], vec![1, 2]);
    csp.add_constraint(Differ { left: "A", right: "B" }).unwrap();
    let mut assignment = HashMap::new();
    assignment.insert("A", 2);
    let found = csp.backtracking_search_with_assignment(assignment).unwrap();
    assert_eq!(found["A"], 2);
    assert_eq!(found["B"], 1);
}
