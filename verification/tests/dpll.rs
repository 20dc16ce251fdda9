use dpll::clause::{Clause, ClauseState};
use dpll::decision_path::DecisionPath;
use dpll::dpll::{DPLLSolver, SolverAction, UnitPropagationResult};
use dpll::lit::Lit;
use dpll::opt_bool::OptBool;
use dpll::partial_assignment::BacktrackResult;
use dpll::pool::solve_single_threaded;
use dpll::problem::{Problem, ProblemBuilder};

fn build(num_vars: usize, clauses: &[Vec<i32>]) -> Problem {
    let mut builder = ProblemBuilder::new(num_vars, clauses.len());
    for ints in clauses {
        let lits: Vec<Lit> = ints.iter().map(|&x| Lit::from(x)).collect();
        let mut clause = Clause::from_lits(&lits);
        builder.add_clause(&mut clause);
    }
    builder.try_build().unwrap()
}

fn pigeonhole(num_holes: usize) -> Problem {
    let num_pigeons = num_holes + 1;
    let var = |p: usize, h: usize| -> i32 { ((p - 1) * num_holes + h) as i32 };
    let mut clauses: Vec<Vec<i32>> = Vec::new();
    for p in 1..=num_pigeons {
        clauses.push((1..=num_holes).map(|h| var(p, h)).collect());
    }
    for h in 1..=num_holes {
        for first in 1..=num_pigeons {
            for second in (first + 1)..=num_pigeons {
                clauses.push(vec![-var(first, h), -var(second, h)]);
            }
        }
    }
    build(num_pigeons * num_holes, &clauses)
}

#[test]
fn tiny_unsat() {
    let problem = build(1, &[vec![1], vec![-1]]);
    assert_eq!(solve_single_threaded(&problem), None);
}

#[test]
fn tiny_sat() {
    let problem = build(3, &[vec![1, 2], vec![-1, 2], vec![-2, 3]]);
    let solution = solve_single_threaded(&problem).unwrap();
    assert_eq!(solution.len(), 3);
    assert_eq!(problem.verify_solution(&solution), Ok(()));
    assert!(solution[1] && solution[2]);
}

#[test]
fn pigeonhole_of_three_holes_is_unsat() {
    let problem = pigeonhole(3);
    assert_eq!(problem.num_vars(), 12);
    assert_eq!(problem.num_clauses(), 22);
    assert_eq!(solve_single_threaded(&problem), None);
}

#[test]
fn unit_cascade() {
    let problem = build(4, &[vec![1], vec![-1, 2], vec![-2, 3], vec![-3, 4]]);
    assert_eq!(
        solve_single_threaded(&problem),
        Some(vec![true, true, true, true])
    );
}

#[test]
fn unit_cascade_from_the_root() {
    let problem = build(4, &[vec![1], vec![-1, 2], vec![-2, 3], vec![-3, 4]]);
    let mut solver = DPLLSolver::with_decisions(&problem, &DecisionPath(vec![]));
    assert_eq!(solver.propagate_units_root(), UnitPropagationResult::SAT);
    assert_eq!(
        solver.assignment.to_solution(),
        vec![true, true, true, true]
    );
    assert_eq!(solver.assignment.decision_level(), 0);
}

#[test]
fn tautology_is_dropped_and_the_rest_solved() {
    let problem = build(3, &[vec![1, -1, 2], vec![-2], vec![2, 3]]);
    assert_eq!(problem.num_clauses(), 2);
    let solution = solve_single_threaded(&problem).unwrap();
    assert_eq!(problem.verify_solution(&solution), Ok(()));
    assert!(!solution[1] && solution[2]);

    let contradiction = build(2, &[vec![1, -1, 2], vec![2], vec![-2]]);
    assert_eq!(solve_single_threaded(&contradiction), None);
}

#[test]
fn root_propagation_finds_a_conflict() {
    let problem = build(2, &[vec![1], vec![-1, 2], vec![-2, -1]]);
    let mut solver = DPLLSolver::with_decisions(&problem, &DecisionPath(vec![]));
    assert_eq!(solver.propagate_units_root(), UnitPropagationResult::UNSAT);
    assert_eq!(solver.backtrack_one_level(), BacktrackResult::NoMoreDecisions);
    assert_eq!(solver.backtrack(), None);
}

#[test]
fn root_propagation_leaves_open_what_is_not_forced() {
    let problem = build(3, &[vec![1], vec![2, 3]]);
    let mut solver = DPLLSolver::with_decisions(&problem, &DecisionPath(vec![]));
    assert_eq!(
        solver.propagate_units_root(),
        UnitPropagationResult::Undecided
    );
    assert_eq!(solver.assignment.get_unchecked(0), OptBool::True);
    assert_eq!(solver.assignment.get_unchecked(1), OptBool::Unassigned);
    assert_eq!(solver.assignment.get_unchecked(2), OptBool::Unassigned);
}

#[test]
fn solving_keeps_the_initial_decisions() {
    let problem = build(3, &[vec![1, 2], vec![-1, 2], vec![-2, 3]]);
    let path = DecisionPath(vec![Lit::from(-1)]);
    let mut solver = DPLLSolver::with_decisions(&problem, &path);
    let solution = solver.solve().unwrap();
    assert!(!solution[0]);
    assert_eq!(problem.verify_solution(&solution), Ok(()));

    // No model has variable 2 false: the branch is refuted, and the
    // initial decision is still in place.
    let refuted = DecisionPath(vec![Lit::from(-2)]);
    let mut solver = DPLLSolver::with_decisions(&problem, &refuted);
    assert_eq!(solver.solve(), None);
    assert_eq!(solver.assignment.get_unchecked(1), OptBool::False);
    assert_eq!(solver.assignment.decision_level(), 1);
}

#[test]
fn branching_takes_the_highest_score_first() {
    // Variable 3 (id 2) is in the most clauses and is decided first; with
    // it true, the units follow.
    let problem = build(3, &[vec![3, 1], vec![3, 2], vec![-3, 1], vec![-3, -2]]);
    let mut solver = DPLLSolver::with_decisions(&problem, &DecisionPath(vec![]));
    let falsified = solver.make_branching_decision();
    assert_eq!(falsified, Lit::from(-3));
    assert_eq!(solver.assignment.last_decision_lit(), Some(Lit::from(3)));
    assert_eq!(solver.step(falsified), SolverAction::SAT);
    assert_eq!(solver.assignment.to_solution(), vec![true, false, true]);
}

#[test]
fn a_step_decides_when_propagation_settles_nothing() {
    let problem = build(4, &[vec![1, 2], vec![3, 4], vec![-3, -4]]);
    let mut solver = DPLLSolver::with_decisions(&problem, &DecisionPath(vec![]));
    let first = solver.make_branching_decision();
    match solver.step(first) {
        SolverAction::Decision(next) => {
            assert!(next.is_neg());
            assert_eq!(solver.assignment.decision_level(), 2);
        }
        other => panic!("expected a decision, got {:?}", other),
    }
}

#[test]
fn a_conflict_asks_for_backtracking_and_the_second_branch_is_tried() {
    // With variable 1 true both values of variable 2 are ruled out.
    let problem = build(2, &[vec![-1, 2], vec![-1, -2], vec![1, 2]]);
    let mut solver = DPLLSolver::with_decisions(&problem, &DecisionPath(vec![]));
    let mut falsified = solver.make_branching_decision();
    let mut backtracks = 0;
    let solution = loop {
        match solver.step(falsified) {
            SolverAction::SAT => break solver.assignment.to_solution(),
            SolverAction::Decision(next) => falsified = next,
            SolverAction::Backtrack => {
                backtracks += 1;
                falsified = solver.backtrack().unwrap();
            }
        }
    };
    assert!(backtracks >= 1);
    assert_eq!(solution, vec![false, true]);
}

#[test]
fn a_handed_out_branch_is_not_searched_again() {
    let problem = build(2, &[vec![1, 2]]);
    let mut solver = DPLLSolver::with_decisions(&problem, &DecisionPath(vec![]));
    let falsified = solver.make_branching_decision();
    assert_eq!(
        solver.propagate_units_from(falsified),
        UnitPropagationResult::Undecided
    );
    let mut cube = Vec::new();
    solver.hand_out_branch(&mut cube);
    assert_eq!(cube.len(), 1);
    assert!(cube[0].is_pos());
    let next = solver.backtrack().unwrap();
    assert_eq!(next, cube[0]);
    assert_eq!(solver.assignment.last_decision(), OptBool::False);
}

#[test]
fn larger_formulas_are_solved() {
    // An exactly-one constraint over each of four groups of three variables,
    // chained by implications between the groups.
    let mut clauses: Vec<Vec<i32>> = Vec::new();
    for g in 0..4 {
        let a = 3 * g + 1;
        clauses.push(vec![a, a + 1, a + 2]);
        clauses.push(vec![-a, -(a + 1)]);
        clauses.push(vec![-a, -(a + 2)]);
        clauses.push(vec![-(a + 1), -(a + 2)]);
    }
    for g in 0..3 {
        let a = 3 * g + 1;
        clauses.push(vec![-a, a + 4]);
        clauses.push(vec![-(a + 1), a + 5]);
        clauses.push(vec![-(a + 2), a + 3]);
    }
    let problem = build(12, &clauses);
    let solution = solve_single_threaded(&problem).unwrap();
    assert_eq!(problem.verify_solution(&solution), Ok(()));
    assert_eq!(solve_single_threaded(&pigeonhole(4)), None);
}

#[test]
fn the_verdict_does_not_depend_on_the_run() {
    let satisfiable = build(
        5,
        &[
            vec![1],
            vec![-1, 2],
            vec![3, 4, 5],
            vec![-3, -4],
            vec![-4, -5],
            vec![-3, -5],
        ],
    );
    let first = solve_single_threaded(&satisfiable).unwrap();
    let second = solve_single_threaded(&satisfiable).unwrap();
    assert_eq!(first, second);
    // The variables that unit propagation forces have their forced values.
    assert!(first[0] && first[1]);
    let mut from_the_root = DPLLSolver::with_decisions(&satisfiable, &DecisionPath(vec![]));
    assert_eq!(
        from_the_root.propagate_units_root(),
        UnitPropagationResult::Undecided
    );
    let third = from_the_root.solve().unwrap();
    assert!(third[0] && third[1]);
    assert_eq!(satisfiable.verify_solution(&third), Ok(()));

    let refuted = pigeonhole(2);
    assert_eq!(solve_single_threaded(&refuted), None);
    assert_eq!(solve_single_threaded(&refuted), None);
}

#[test]
fn propagation_leaves_no_clause_unit_or_falsified() {
    let problem = build(
        6,
        &[
            vec![1],
            vec![-1, 2],
            vec![-2, 3, 4],
            vec![4, 5, 6],
            vec![-3, -4, 5],
            vec![-5, -6],
        ],
    );
    let mut solver = DPLLSolver::with_decisions(&problem, &DecisionPath(vec![]));
    assert_eq!(
        solver.propagate_units_root(),
        UnitPropagationResult::Undecided
    );
    for c in 0..problem.num_clauses() {
        let state = problem.clause(c).eval_with_partial(solver.assignment());
        assert!(matches!(
            state,
            ClauseState::Satisfied | ClauseState::Undecided(_)
        ));
    }
    let mut pending = solver.make_branching_decision();
    loop {
        match solver.step(pending) {
            SolverAction::Decision(next) => {
                for c in 0..problem.num_clauses() {
                    let assignment = solver.assignment();
                    let clause = problem.clause(c);
                    if clause.is_unsatisfied_by_partial(assignment) {
                        panic!("a falsified clause was passed over");
                    }
                }
                pending = next;
            }
            SolverAction::SAT => break,
            SolverAction::Backtrack => match solver.backtrack() {
                Some(next) => pending = next,
                None => panic!("the formula has a model"),
            },
        }
    }
    assert_eq!(
        problem.verify_solution(&solver.assignment.to_solution()),
        Ok(())
    );
}

#[test]
fn a_switched_branch_is_taken_up_from_its_last_decision() {
    let problem = build(3, &[vec![1, 2], vec![-1, 3], vec![-2, -3]]);
    let path = DecisionPath(vec![Lit::from(3), Lit::from(-1)]);
    let (falsified, mut solver) = DPLLSolver::with_switched_decision(&problem, &path);
    assert_eq!(falsified, Lit::from(1));
    assert_eq!(solver.assignment.decision_level(), 2);
    assert_eq!(solver.assignment.get_unchecked(0), OptBool::False);
    assert_eq!(solver.assignment.get_unchecked(1), OptBool::Unassigned);
    assert_eq!(solver.assignment.get_unchecked(2), OptBool::True);
    // The clause of the literal made false forces the second variable,
    // which falsifies the last clause.
    assert_eq!(
        solver.propagate_units_from(falsified),
        UnitPropagationResult::UNSAT
    );
    assert_eq!(solver.backtrack(), None);
}

#[test]
fn the_search_returns_the_model_of_the_first_branches() {
    // Every model makes the second and third variable true; the first is
    // free, and its first branch is true.
    let problem = build(3, &[vec![1, 2], vec![-1, 2], vec![-2, 3]]);
    let mut solver = DPLLSolver::with_decisions(&problem, &DecisionPath(vec![]));
    assert_eq!(solver.solve(), Some(vec![true, true, true]));

    // The tautology is dropped, and the clause left makes the second
    // variable false; the first stays on its first branch.
    let problem = build(2, &[vec![1, -1, 2], vec![-2]]);
    assert_eq!(problem.num_clauses(), 1);
    let mut solver = DPLLSolver::with_decisions(&problem, &DecisionPath(vec![]));
    assert_eq!(solver.solve(), Some(vec![true, false]));

    // Two runs from the same start return the same.
    let problem = pigeonhole(2);
    let mut one = DPLLSolver::with_decisions(&problem, &DecisionPath(vec![Lit::from(-1)]));
    let mut other = DPLLSolver::with_decisions(&problem, &DecisionPath(vec![Lit::from(-1)]));
    assert_eq!(one.solve(), other.solve());
}
