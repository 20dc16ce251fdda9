use dpll::clause::{Clause, ClauseState};
use dpll::decision_path::DecisionPath;
use dpll::lit::Lit;
use dpll::opt_bool::OptBool;
use dpll::partial_assignment::PartialAssignment;

fn clause_of(ints: &[i32]) -> Clause {
    let lits: Vec<Lit> = ints.iter().map(|&x| Lit::from(x)).collect();
    Clause::from_lits(&lits)
}

fn lits_of(clause: &Clause) -> Vec<Lit> {
    (0..clause.len()).map(|i| clause.get(i)).collect()
}

#[test]
fn test_is_tautology() {
    let cases: Vec<(Vec<i32>, bool)> = vec![
        (vec![1, -1], true),
        (vec![-2, 1, 1, 1, 2], true),
        (vec![-3, 3, 4], true),
        (vec![1, 2, 3], false),
        (vec![-1, -2, -3], false),
        (vec![1, -2, 3], false),
        (vec![], false),
    ];

    for (clause_ints, expected) in cases {
        let mut clause: Clause = clause_of(&clause_ints);
        clause.sort_unstable();
        clause.dedup();

        assert_eq!(
            clause.is_tautology(),
            expected,
            "Tautology check failed for clause {:?}",
            clause_ints
        );
    }
}

#[test]
fn sort_and_dedup_give_the_normal_form() {
    let mut clause = clause_of(&[3, -1, 2, 3, -1, 1, 2]);
    clause.sort_unstable();
    assert_eq!(
        lits_of(&clause),
        vec![
            Lit::from(1),
            Lit::from(-1),
            Lit::from(-1),
            Lit::from(2),
            Lit::from(2),
            Lit::from(3),
            Lit::from(3)
        ]
    );
    clause.dedup();
    assert_eq!(
        lits_of(&clause),
        vec![Lit::from(1), Lit::from(-1), Lit::from(2), Lit::from(3)]
    );
    assert_eq!(clause.len(), 4);
}

#[test]
fn dedup_only_drops_neighbours() {
    let mut clause = clause_of(&[1, 2, 1, 1, 2, 2, 1]);
    clause.dedup();
    assert_eq!(
        lits_of(&clause),
        vec![
            Lit::from(1),
            Lit::from(2),
            Lit::from(1),
            Lit::from(2),
            Lit::from(1)
        ]
    );
}

#[test]
fn push_clear_and_clone() {
    let mut clause = Clause::new();
    assert!(clause.is_empty());
    clause.push(Lit::new(4, true));
    clause.push(Lit::new(2, false));
    assert_eq!(clause.len(), 2);
    assert_eq!(clause.get(0), Lit::new(4, true));
    assert_eq!(clause.get(1), Lit::new(2, false));
    let copy = clause.clone();
    clause.clear();
    assert!(clause.is_empty());
    assert_eq!(lits_of(&copy), vec![Lit::new(4, true), Lit::new(2, false)]);
}

#[test]
fn satisfied_by_a_total_assignment() {
    let clause = clause_of(&[1, -2, 3]);
    assert!(clause.is_satisfied_by(&[true, true, false]));
    assert!(clause.is_satisfied_by(&[false, false, false]));
    assert!(clause.is_satisfied_by(&[false, true, true]));
    assert!(!clause.is_satisfied_by(&[false, true, false]));
    assert!(!clause_of(&[]).is_satisfied_by(&[true]));
}

#[test]
fn states_under_a_partial_assignment() {
    let clause = clause_of(&[1, -2, 3]);
    let mut assignment = PartialAssignment::with_decisions(3, &DecisionPath(vec![]));
    assert_eq!(
        clause.eval_with_partial(&assignment),
        ClauseState::Undecided(3)
    );
    assert!(!clause.is_satisfied_by_partial(&assignment));

    assignment.propagate(0, false);
    assert_eq!(
        clause.eval_with_partial(&assignment),
        ClauseState::Undecided(2)
    );

    assignment.propagate(2, false);
    assert_eq!(
        clause.eval_with_partial(&assignment),
        ClauseState::Unit(Lit::from(-2))
    );

    assignment.propagate(1, true);
    assert_eq!(
        clause.eval_with_partial(&assignment),
        ClauseState::Unsatisfied
    );
    assert!(!clause.is_satisfied_by_partial(&assignment));
    assert!(clause.is_unsatisfied_by_partial(&[
        OptBool::False,
        OptBool::True,
        OptBool::False
    ]));
    assert!(!clause.is_unsatisfied_by_partial(&[
        OptBool::False,
        OptBool::Unassigned,
        OptBool::False
    ]));
}

#[test]
fn a_true_literal_satisfies_whatever_else_is_open() {
    let clause = clause_of(&[1, 2]);
    let mut assignment = PartialAssignment::with_decisions(2, &DecisionPath(vec![]));
    assignment.propagate(1, true);
    assert_eq!(clause.eval_with_partial(&assignment), ClauseState::Satisfied);
    assert!(clause.is_satisfied_by_partial(&assignment));
    assert_eq!(
        clause_of(&[]).eval_with_partial(&assignment),
        ClauseState::Unsatisfied
    );
}
