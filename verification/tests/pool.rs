use dpll::clause::Clause;
use dpll::cube_and_conquer::CubeGenerationResult;
use dpll::decision_path::DecisionPath;
use dpll::lit::Lit;
use dpll::pool::{
    await_step, calculate_depth, calculate_optimal_splits, decide_num_workers, dispatch,
    AwaitStep, Dispatch, SingleThreadedWorkerPool, SubProblem, WorkerPoolStrategy,
};
use dpll::problem::{Problem, ProblemBuilder};

fn free_problem(num_vars: usize) -> Problem {
    let mut builder = ProblemBuilder::new(num_vars, 1);
    let mut clause = Clause::from_lits(&[Lit::new(0, true)]);
    builder.add_clause(&mut clause);
    builder.try_build().unwrap()
}

#[test]
fn workers_by_size_of_the_formula() {
    assert_eq!(decide_num_workers(&free_problem(99), 32), 1);
    assert_eq!(decide_num_workers(&free_problem(100), 32), 8);
    assert_eq!(decide_num_workers(&free_problem(199), 32), 8);
    assert_eq!(decide_num_workers(&free_problem(200), 32), 12);
    assert_eq!(decide_num_workers(&free_problem(249), 32), 12);
    assert_eq!(decide_num_workers(&free_problem(250), 32), 16);
    assert_eq!(decide_num_workers(&free_problem(250), 4), 4);
    assert_eq!(decide_num_workers(&free_problem(10), 4), 1);
}

#[test]
fn splits_are_the_logarithm_of_the_workers() {
    let problem = free_problem(3);
    assert_eq!(calculate_optimal_splits(&problem, 1), Some(0));
    assert_eq!(calculate_optimal_splits(&problem, 2), Some(1));
    assert_eq!(calculate_optimal_splits(&problem, 4), Some(2));
    assert_eq!(calculate_optimal_splits(&problem, 5), Some(3));
    assert_eq!(calculate_optimal_splits(&problem, 8), Some(3));
    assert_eq!(calculate_optimal_splits(&problem, 9), None);
    assert_eq!(calculate_depth(8, 100), 3);
    assert_eq!(calculate_depth(9, 100), 4);
    assert_eq!(calculate_depth(1024, 4), 4);
    assert_eq!(calculate_depth(1, 4), 0);
}

#[test]
fn each_result_of_the_generator_has_its_action() {
    match dispatch(CubeGenerationResult::SAT(vec![true, false]), 7) {
        Dispatch::Solution(values) => assert_eq!(values, vec![true, false]),
        other => panic!("unexpected {:?}", other),
    }
    assert!(matches!(
        dispatch(CubeGenerationResult::UNSAT, 7),
        Dispatch::Refuted
    ));
    match dispatch(
        CubeGenerationResult::Cube(DecisionPath(vec![Lit::new(2, false)])),
        7,
    ) {
        Dispatch::Job(job) => {
            assert_eq!(job.pid, 7);
            assert_eq!(job.initial_decision.0, vec![Lit::new(2, false)]);
        }
        other => panic!("unexpected {:?}", other),
    }
    let job = SubProblem::new(3, DecisionPath(vec![]));
    assert_eq!(job.pid, 3);
    assert!(job.initial_decision.0.is_empty());
}

#[test]
fn waiting_ends_with_a_solution_or_with_idle_workers() {
    match await_step(Some(vec![true]), 5, 5) {
        AwaitStep::Sat(values) => assert_eq!(values, vec![true]),
        other => panic!("unexpected {:?}", other),
    }
    assert!(matches!(await_step(None, 0, 0), AwaitStep::Unsat));
    assert!(matches!(await_step(None, 1, 0), AwaitStep::Wait));
    assert!(matches!(await_step(None, 0, 1), AwaitStep::Wait));
}

#[test]
fn the_pool_of_one_solves_on_the_spot() {
    let pool = SingleThreadedWorkerPool {};
    let problem = free_problem(2);
    let solution = pool.submit(&problem).unwrap();
    assert_eq!(problem.verify_solution(&solution), Ok(()));
    assert!(solution[0]);
}
