use crossbeam_deque::Worker;
use dpll::clause::Clause;
use dpll::decision_path::DecisionPath;
use dpll::dpll::DPLLSolver;
use dpll::lit::Lit;
use dpll::problem::{Problem, ProblemBuilder};
use dpll::stealing::{StealEvent, StealingWorker};
use dpll::utils::BackoffStep;
use dpll::worker::{BasicWorker, NewWork, SearchEnd, WorkerCore, WorkerStrategy};
use std::sync::atomic::{AtomicBool, AtomicUsize};
use std::sync::Arc;

fn build(num_vars: usize, clauses: &[Vec<i32>]) -> Problem {
    let mut builder = ProblemBuilder::new(num_vars, clauses.len());
    for ints in clauses {
        let lits: Vec<Lit> = ints.iter().map(|&x| Lit::from(x)).collect();
        let mut clause = Clause::from_lits(&lits);
        builder.add_clause(&mut clause);
    }
    builder.try_build().unwrap()
}

fn pair_of_workers() -> (StealingWorker, StealingWorker) {
    let queue_a: Worker<Arc<DecisionPath>> = Worker::new_lifo();
    let queue_b: Worker<Arc<DecisionPath>> = Worker::new_lifo();
    let stealer_a = queue_a.stealer();
    let stealer_b = queue_b.stealer();
    let a = StealingWorker::new(0, queue_a, vec![(stealer_b, 1)]);
    let b = StealingWorker::new(1, queue_b, vec![(stealer_a, 0)]);
    (a, b)
}

#[test]
fn basic_worker_solves_a_subproblem() {
    let problem = build(3, &[vec![1, 2], vec![-1, 2], vec![-2, 3]]);
    let flag = AtomicBool::new(false);
    let mut worker = WorkerCore::new(0, BasicWorker {});
    assert_eq!(worker.id(), 0);
    worker.on_new_problem(&problem);
    let (end, _) = worker.solve_subproblem(&problem, &DecisionPath(vec![Lit::from(-1)]), &flag);
    match end {
        SearchEnd::Solved(values) => {
            assert!(!values[0]);
            assert_eq!(problem.verify_solution(&values), Ok(()));
        }
        other => panic!("expected a solution, got {:?}", other),
    }
}

#[test]
fn basic_worker_exhausts_a_refuted_subproblem() {
    let problem = build(3, &[vec![1, 2], vec![-1, 2], vec![-2, 3]]);
    let flag = AtomicBool::new(false);
    let mut worker = WorkerCore::new(3, BasicWorker {});
    let (end, solver) =
        worker.solve_subproblem(&problem, &DecisionPath(vec![Lit::from(-2)]), &flag);
    assert!(matches!(end, SearchEnd::Exhausted));
    assert_eq!(solver.assignment.decision_level(), 1);
    let active = AtomicUsize::new(1);
    assert!(matches!(
        worker.find_new_work(&problem, &flag, &active),
        NewWork::GiveUp
    ));
}

#[test]
fn a_raised_flag_cancels_the_search() {
    let problem = build(3, &[vec![1, 2], vec![-1, 2], vec![-2, 3]]);
    let flag = AtomicBool::new(true);
    let mut worker = WorkerCore::new(0, BasicWorker {});
    let (end, _) = worker.solve_subproblem(&problem, &DecisionPath(vec![]), &flag);
    assert!(matches!(end, SearchEnd::Cancelled));
}

#[test]
fn basic_worker_never_stops_early() {
    let problem = build(2, &[vec![1, 2]]);
    let solver = DPLLSolver::with_decisions(&problem, &DecisionPath(vec![]));
    let mut basic = BasicWorker {};
    basic.on_new_subproblem(&solver);
    basic.after_decision(&solver);
    assert!(!basic.should_stop_backtracking_early(&solver));
}

#[test]
fn an_offer_is_the_path_with_the_last_decision_switched() {
    // Sixteen variables: branches are offered down to level two.
    let clauses: Vec<Vec<i32>> = (1..16).map(|v| vec![v, v + 1]).collect();
    let problem = build(16, &clauses);
    let (mut a, mut b) = pair_of_workers();
    a.on_new_problem(&problem);
    b.on_new_problem(&problem);

    let mut solver = DPLLSolver::with_decisions(&problem, &DecisionPath(vec![]));
    a.on_new_subproblem(&solver);
    let falsified = solver.make_branching_decision();
    let decided = solver.assignment.last_decision_lit().unwrap();
    assert_eq!(falsified, decided.inverted());
    a.after_decision(&solver);

    // The peer steals the offer: the other branch of the decision.
    let flag = AtomicBool::new(false);
    let active = AtomicUsize::new(1);
    match b.find_new_work(&problem, &flag, &active) {
        NewWork::Found(lit, stolen_solver) => {
            assert_eq!(lit, decided);
            assert_eq!(stolen_solver.assignment.decision_level(), 1);
            assert_eq!(
                stolen_solver.assignment.last_decision_lit(),
                Some(decided.inverted())
            );
        }
        _ => panic!("expected stolen work"),
    }
    // Back at the decision, the owner finds its offer gone and stops.
    assert!(a.should_stop_backtracking_early(&solver));
}

#[test]
fn an_offer_that_nobody_took_is_taken_back() {
    let clauses: Vec<Vec<i32>> = (1..16).map(|v| vec![v, v + 1]).collect();
    let problem = build(16, &clauses);
    let (mut a, mut b) = pair_of_workers();
    a.on_new_problem(&problem);
    b.on_new_problem(&problem);
    let mut solver = DPLLSolver::with_decisions(&problem, &DecisionPath(vec![]));
    a.on_new_subproblem(&solver);
    solver.make_branching_decision();
    a.after_decision(&solver);
    assert!(!a.should_stop_backtracking_early(&solver));
    // The offer is gone from the deque now: there is nothing to steal.
    assert!(b.try_steal_from_peers().is_none());
}

#[test]
fn the_offer_switches_the_last_decision() {
    let clauses: Vec<Vec<i32>> = (1..16).map(|v| vec![v, v + 1]).collect();
    let problem = build(16, &clauses);
    let (mut a, _b) = pair_of_workers();
    a.on_new_problem(&problem);
    let mut solver = DPLLSolver::with_decisions(&problem, &DecisionPath(vec![]));
    // Without a decision there is nothing to offer.
    assert!(a.offer(&solver, 0).is_none());
    assert!(!a.offered_here(&solver));
    let first = solver.make_branching_decision();
    let second = match solver.step(first) {
        dpll::dpll::SolverAction::Decision(lit) => lit,
        other => panic!("expected a decision, got {:?}", other),
    };
    let offer = a.offer(&solver, 0).unwrap();
    assert_eq!(offer.0, vec![first.inverted(), second]);
    // A full deque takes no offer, and the third level is too deep for
    // sixteen variables.
    assert!(a.offer(&solver, 10).is_none());
    assert!(a.offer(&solver, 9).is_some());
    let third = match solver.step(second) {
        dpll::dpll::SolverAction::Decision(lit) => lit,
        other => panic!("expected a decision, got {:?}", other),
    };
    assert!(third.is_neg());
    assert!(a.offer(&solver, 0).is_none());
    // On the second branch of a decision there is nothing left to offer.
    let mut solver = DPLLSolver::with_decisions(&problem, &DecisionPath(vec![]));
    let falsified = solver.make_branching_decision();
    let mut cube = Vec::new();
    solver.propagate_units_from(falsified);
    solver.hand_out_branch(&mut cube);
    solver.backtrack().unwrap();
    assert!(a.offer(&solver, 0).is_none());
}

#[test]
fn nothing_is_offered_beyond_the_offer_depth() {
    // Seven variables: the offer depth is zero, so no level is offered.
    let clauses: Vec<Vec<i32>> = (1..7).map(|v| vec![v, v + 1]).collect();
    let problem = build(7, &clauses);
    let (mut a, mut b) = pair_of_workers();
    a.on_new_problem(&problem);
    let mut solver = DPLLSolver::with_decisions(&problem, &DecisionPath(vec![]));
    a.on_new_subproblem(&solver);
    solver.make_branching_decision();
    a.after_decision(&solver);
    assert!(b.try_steal_from_peers().is_none());
    assert!(!a.should_stop_backtracking_early(&solver));
}

#[test]
fn a_thief_without_loot_waits_or_gives_up() {
    let problem = build(2, &[vec![1, 2]]);
    let (mut a, _b) = pair_of_workers();
    a.on_new_problem(&problem);
    let flag = AtomicBool::new(false);
    let busy = AtomicUsize::new(2);
    match a.find_new_work(&problem, &flag, &busy) {
        NewWork::Retry(step) => assert_eq!(step, BackoffStep::Spin),
        _ => panic!("expected a wait"),
    }
    let idle = AtomicUsize::new(0);
    assert!(matches!(
        a.find_new_work(&problem, &flag, &idle),
        NewWork::GiveUp
    ));
    let raised = AtomicBool::new(true);
    assert!(matches!(
        a.find_new_work(&problem, &raised, &busy),
        NewWork::GiveUp
    ));
}

#[test]
fn a_stealing_worker_searches_like_any_other() {
    let clauses: Vec<Vec<i32>> = vec![
        vec![1, 2],
        vec![-1, -2],
        vec![2, 3],
        vec![-2, -3],
        vec![3, 4],
        vec![-3, -4],
        vec![1, 4],
    ];
    let problem = build(4, &clauses);
    let (a, _b) = pair_of_workers();
    let flag = AtomicBool::new(false);
    let mut worker = WorkerCore::new(0, a);
    worker.on_new_problem(&problem);
    let (end, _) = worker.solve_subproblem(&problem, &DecisionPath(vec![]), &flag);
    match end {
        SearchEnd::Solved(values) => assert_eq!(problem.verify_solution(&values), Ok(())),
        other => panic!("expected a solution, got {:?}", other),
    }
}

#[test]
fn a_stolen_path_is_adopted_if_it_can_start_a_search() {
    let problem = build(3, &[vec![1, 2], vec![-1, 2], vec![-2, 3]]);
    let (mut a, _b) = pair_of_workers();
    a.on_new_problem(&problem);
    let path = Arc::new(DecisionPath(vec![Lit::from(2), Lit::from(-1)]));
    let (falsified, solver) = a.adopt(&problem, path).unwrap();
    assert_eq!(falsified, Lit::from(1));
    assert_eq!(solver.assignment.decision_level(), 2);
    assert_eq!(
        solver.assignment.get_unchecked(0),
        dpll::opt_bool::OptBool::False
    );
    assert_eq!(
        solver.assignment.get_unchecked(1),
        dpll::opt_bool::OptBool::True
    );
    // An empty path, a variable beyond the formula, a variable twice.
    assert!(a.adopt(&problem, Arc::new(DecisionPath(vec![]))).is_none());
    assert!(a
        .adopt(&problem, Arc::new(DecisionPath(vec![Lit::from(4)])))
        .is_none());
    assert!(a
        .adopt(
            &problem,
            Arc::new(DecisionPath(vec![Lit::from(1), Lit::from(-1)]))
        )
        .is_none());
}

#[test]
fn an_idle_worker_gives_up_or_waits_at_its_pace() {
    let (mut a, _b) = pair_of_workers();
    assert_eq!(a.idle_step(true, 3), None);
    assert_eq!(a.idle_step(false, 0), None);
    assert_eq!(a.idle_step(true, 0), None);
    for _ in 0..8 {
        assert_eq!(a.idle_step(false, 1), Some(BackoffStep::Spin));
    }
    for _ in 0..16 {
        assert_eq!(a.idle_step(false, 1), Some(BackoffStep::Yield));
    }
    assert_eq!(a.idle_step(false, 1), Some(BackoffStep::Sleep(1_000)));
    assert_eq!(a.idle_step(false, 1), Some(BackoffStep::Sleep(1_200)));
    // Giving up counts no wait.
    assert_eq!(a.idle_step(true, 1), None);
    assert_eq!(a.idle_step(false, 1), Some(BackoffStep::Sleep(1_440)));
}

#[test]
fn an_empty_deque_means_the_offer_was_stolen() {
    let (mut a, _b) = pair_of_workers();
    assert!(a.take_back(None));
    let offer = Arc::new(DecisionPath(vec![Lit::from(1), Lit::from(-2)]));
    assert!(!a.take_back(Some(offer)));
    assert!(!a.take_back(Some(Arc::new(DecisionPath(vec![])))));
}

#[test]
fn a_try_at_a_peer_hands_on_what_it_got() {
    let (mut a, _b) = pair_of_workers();
    assert!(a.note_try(0, None).is_none());
    let path = Arc::new(DecisionPath(vec![Lit::from(3), Lit::from(-4)]));
    let loot = a.note_try(0, Some(path.clone())).unwrap();
    assert!(Arc::ptr_eq(&loot, &path));
    assert_eq!(loot.0, vec![Lit::from(3), Lit::from(-4)]);
}

#[test]
fn a_thief_takes_up_the_offer_of_its_peer() {
    // Sixteen variables: offers go down to the second level.
    let clauses: Vec<Vec<i32>> = (1..16).map(|v| vec![v, v + 1]).collect();
    let problem = build(16, &clauses);
    let (mut a, mut b) = pair_of_workers();
    a.on_new_problem(&problem);
    b.on_new_problem(&problem);
    let mut solver = DPLLSolver::with_decisions(&problem, &DecisionPath(vec![]));
    a.on_new_subproblem(&solver);
    let first = solver.make_branching_decision();
    a.after_decision(&solver);

    let flag = AtomicBool::new(false);
    let busy = AtomicUsize::new(1);
    match b.find_new_work(&problem, &flag, &busy) {
        NewWork::Found(falsified, stolen) => {
            // The thief starts on the second branch of the decision.
            assert_eq!(falsified, first.inverted());
            assert_eq!(stolen.assignment.decision_level(), 1);
            assert_eq!(
                stolen.assignment.last_decision_lit(),
                Some(falsified.inverted())
            );
        }
        _ => panic!("expected the offer of the peer"),
    }
    // The offer is gone: the owner stops where it would enter the branch.
    assert!(a.should_stop_backtracking_early(&solver));
    // And the thief finds nothing more.
    match b.find_new_work(&problem, &flag, &busy) {
        NewWork::Retry(step) => assert_eq!(step, BackoffStep::Spin),
        _ => panic!("expected a wait"),
    }
}

#[test]
fn what_a_stealing_worker_does_goes_on_record() {
    let clauses: Vec<Vec<i32>> = (1..16).map(|v| vec![v, v + 1]).collect();
    let problem = build(16, &clauses);
    let (mut a, mut b) = pair_of_workers();
    // Nothing is recorded until the record is turned on.
    assert!(b.try_steal_from_peers().is_none());
    assert!(b.take_record().is_empty());
    a.set_recording(true);
    b.set_recording(true);
    a.on_new_problem(&problem);
    b.on_new_problem(&problem);
    let mut solver = DPLLSolver::with_decisions(&problem, &DecisionPath(vec![]));
    a.on_new_subproblem(&solver);
    solver.make_branching_decision();
    a.after_decision(&solver);
    assert_eq!(
        a.take_record(),
        vec![StealEvent::QueueLength(0), StealEvent::PushIntoQueue]
    );
    assert!(a.take_record().is_empty());

    assert!(b.try_steal_from_peers().is_some());
    assert!(b.try_steal_from_peers().is_none());
    assert_eq!(
        b.take_record(),
        vec![StealEvent::StoleFrom(0), StealEvent::FailedToSteal]
    );
    assert!(a.should_stop_backtracking_early(&solver));
    assert_eq!(a.take_record(), vec![StealEvent::WorkWasStolen]);

    // An offer that nobody took is popped again.
    let mut solver = DPLLSolver::with_decisions(&problem, &DecisionPath(vec![]));
    a.on_new_subproblem(&solver);
    solver.make_branching_decision();
    a.after_decision(&solver);
    assert!(!a.should_stop_backtracking_early(&solver));
    assert_eq!(
        a.take_record(),
        vec![
            StealEvent::QueueLength(0),
            StealEvent::PushIntoQueue,
            StealEvent::PopFromQueue
        ]
    );
    let mut core = WorkerCore::new(5, BasicWorker {});
    assert!(core.take_record().is_empty());
}
