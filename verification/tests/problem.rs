use dpll::clause::Clause;
use dpll::lit::Lit;
use dpll::problem::{Problem, ProblemBuilder};
use dpll::store::{MAX_CLAUSES_PER_VAR, MAX_LITS_PER_CLAUSE};
use dpll::vsids::ACTIVITY_ONE;

fn clause_of(ints: &[i32]) -> Clause {
    let lits: Vec<Lit> = ints.iter().map(|&x| Lit::from(x)).collect();
    Clause::from_lits(&lits)
}

fn build(num_vars: usize, clauses: &[&[i32]]) -> Option<Problem> {
    let mut builder = ProblemBuilder::new(num_vars, clauses.len());
    for ints in clauses {
        let mut clause = clause_of(ints);
        builder.add_clause(&mut clause);
    }
    builder.try_build()
}

fn lits_of(clause: &Clause) -> Vec<Lit> {
    (0..clause.len()).map(|i| clause.get(i)).collect()
}

#[test]
fn builder_normalises_and_drops_tautologies() {
    let problem = build(3, &[&[3, 1, 3, -2], &[1, -1, 2], &[-3]]).unwrap();
    assert_eq!(problem.num_vars(), 3);
    assert_eq!(problem.num_clauses(), 2);
    assert_eq!(
        lits_of(problem.clause(0)),
        vec![Lit::from(1), Lit::from(-2), Lit::from(3)]
    );
    assert_eq!(lits_of(problem.clause(1)), vec![Lit::from(-3)]);
}

#[test]
fn add_clause_leaves_the_clause_normalised() {
    let mut builder = ProblemBuilder::new(2, 1);
    let mut clause = clause_of(&[2, -1, 2]);
    builder.add_clause(&mut clause);
    assert_eq!(lits_of(&clause), vec![Lit::from(-1), Lit::from(2)]);
    let problem = builder.build();
    assert_eq!(problem.num_clauses(), 1);
}

#[test]
fn indices_list_the_clauses_of_each_literal_and_variable() {
    let problem = build(3, &[&[1, 2], &[-1, 2], &[-2, 3], &[1, 3]]).unwrap();
    let ids = |lit: Lit| -> Vec<usize> {
        (0..problem.num_clauses_containing_lit(lit))
            .map(|k| problem.clause_containing_lit(lit, k))
            .collect()
    };
    assert_eq!(ids(Lit::from(1)), vec![0, 3]);
    assert_eq!(ids(Lit::from(-1)), vec![1]);
    assert_eq!(ids(Lit::from(2)), vec![0, 1]);
    assert_eq!(ids(Lit::from(-2)), vec![2]);
    assert_eq!(ids(Lit::from(3)), vec![2, 3]);
    assert_eq!(ids(Lit::from(-3)), Vec::<usize>::new());

    let with_lit: Vec<Vec<Lit>> = problem
        .clauses_containing_lit(Lit::from(2))
        .into_iter()
        .map(lits_of)
        .collect();
    assert_eq!(
        with_lit,
        vec![
            vec![Lit::from(1), Lit::from(2)],
            vec![Lit::from(-1), Lit::from(2)]
        ]
    );
    let with_var: Vec<Vec<Lit>> = problem
        .clauses_containing_var(0)
        .into_iter()
        .map(lits_of)
        .collect();
    assert_eq!(
        with_var,
        vec![
            vec![Lit::from(1), Lit::from(2)],
            vec![Lit::from(-1), Lit::from(2)],
            vec![Lit::from(1), Lit::from(3)]
        ]
    );
}

#[test]
fn scores_sum_the_weights_of_the_clauses_of_a_variable() {
    // Variable 1 (id 0) is in a clause of one literal and in one of three.
    let problem = build(4, &[&[1], &[1, 2, 3], &[-2, -3]]).unwrap();
    let scores = problem.var_scores();
    assert_eq!(scores[0], ACTIVITY_ONE / 2 + ACTIVITY_ONE / 8);
    assert_eq!(scores[1], ACTIVITY_ONE / 8 + ACTIVITY_ONE / 4);
    assert_eq!(scores[2], ACTIVITY_ONE / 8 + ACTIVITY_ONE / 4);
    assert_eq!(scores[3], 0);
}

#[test]
fn verify_solution_names_the_first_unsatisfied_clause() {
    let problem = build(3, &[&[1, 2], &[-1, 2], &[-2, 3]]).unwrap();
    assert_eq!(problem.verify_solution(&[true, true, true]), Ok(()));
    assert_eq!(problem.first_unsatisfied(&[true, true, true]), None);
    assert_eq!(
        problem.verify_solution(&[true, false, true]),
        Err("Clause 1 is unsatisfied.".to_string())
    );
    assert_eq!(problem.first_unsatisfied(&[true, false, true]), Some(1));
    assert_eq!(
        problem.verify_solution(&[false, false, false]),
        Err("Clause 0 is unsatisfied.".to_string())
    );
    assert_eq!(
        problem.verify_solution(&[true, true, false]),
        Err("Clause 2 is unsatisfied.".to_string())
    );
}

#[test]
fn formulas_that_cannot_be_stored_are_refused() {
    // A literal beyond the variables.
    assert!(build(2, &[&[1, 3]]).is_none());
    // A variable in more clauses than an index entry holds.
    let many: Vec<Vec<i32>> = (0..=MAX_CLAUSES_PER_VAR as i32)
        .map(|k| vec![1, k + 2])
        .collect();
    let refs: Vec<&[i32]> = many.iter().map(|c| c.as_slice()).collect();
    assert!(build(MAX_CLAUSES_PER_VAR + 2, &refs).is_none());
    let fits: Vec<&[i32]> = refs[..MAX_CLAUSES_PER_VAR].to_vec();
    assert!(build(MAX_CLAUSES_PER_VAR + 2, &fits).is_some());
    // Clauses that are not in normal form cannot be stored directly.
    assert!(Problem::try_new(2, vec![clause_of(&[2, 1])]).is_none());
    assert!(Problem::try_new(2, vec![clause_of(&[1, 1])]).is_none());
    assert!(Problem::try_new(2, vec![clause_of(&[1, -1])]).is_none());
    assert!(Problem::try_new(2, vec![clause_of(&[1, 2])]).is_some());
    assert_eq!(MAX_LITS_PER_CLAUSE, 16);
}

#[test]
fn the_default_problem_is_empty() {
    let problem = Problem::default();
    assert_eq!(problem.num_vars(), 0);
    assert_eq!(problem.num_clauses(), 0);
    assert_eq!(problem.verify_solution(&[]), Ok(()));
    let direct = Problem::new(1, vec![clause_of(&[-1])]);
    assert_eq!(direct.num_clauses(), 1);
}

#[test]
fn jeroslow_wang_scores_of_a_list_of_clauses() {
    let mut clauses = vec![clause_of(&[1, 2]), clause_of(&[-1, 2, 3]), clause_of(&[3])];
    for clause in clauses.iter_mut() {
        clause.sort_unstable();
        clause.dedup();
    }
    let scores = Problem::calculate_jeroslow_wang_scores(&clauses, 4);
    assert_eq!(scores, vec![393_216, 393_216, 655_360, 0]);
    assert_eq!(Problem::calculate_jeroslow_wang_scores(&[], 2), vec![0, 0]);
}

#[test]
fn the_error_names_the_smallest_unsatisfied_clause() {
    let problem = build(3, &[&[1], &[2], &[3], &[-1, -2]]).unwrap();
    // The second and the third clause are unsatisfied: the second is named.
    assert_eq!(
        problem.verify_solution(&[true, false, false]),
        Err("Clause 1 is unsatisfied.".to_string())
    );
    // The first and the last.
    assert_eq!(
        problem.verify_solution(&[false, true, true]),
        Err("Clause 0 is unsatisfied.".to_string())
    );
    assert_eq!(
        problem.verify_solution(&[true, true, true]),
        Err("Clause 3 is unsatisfied.".to_string())
    );
}
