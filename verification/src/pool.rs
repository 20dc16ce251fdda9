//! The decisions of a worker pool: how many workers a formula is worth,
//! how deep to split it, what to do with each thing the cube generator
//! hands out, and when to stop waiting.

use crate::clause::clause_falsified;
use crate::cube_and_conquer::CubeGenerationResult;
use crate::decision_path::{path_assignment, DecisionPath};
use crate::dpll::DPLLSolver;
use crate::models::{conflict_free, is_model, lemma_theory_models};
use crate::lit::Lit;
use crate::problem::{no_empty_clause, Problem};
use crate::utils::{ceil_log2, ilog2_ceil};
use vstd::prelude::*;

verus! {

/// One piece of a problem: a branch of its search, to be searched by one
/// worker.
#[derive(Debug)]
pub struct SubProblem {
    /// The id of the problem that the piece belongs to.
    pub pid: usize,
    /// The decisions that lead to the branch.
    pub initial_decision: DecisionPath,
}

impl SubProblem {
    /// The piece of problem `pid` that the decisions lead to.
    pub fn new(pid: usize, initial_decision: DecisionPath) -> (subproblem: SubProblem)
        ensures
            subproblem.pid == pid,
            subproblem.initial_decision == initial_decision,
    {
        SubProblem { pid, initial_decision }
    }
}

/// The number of workers that a formula of `num_vars` variables is worth.
pub open spec fn workers_for(num_vars: nat) -> nat {
    if num_vars >= 250 {
        16
    } else if num_vars >= 200 {
        12
    } else if num_vars >= 100 {
        8
    } else {
        1
    }
}

/// The number of workers to use: what the size of the formula is worth,
/// but no more than `max_workers`.
pub fn decide_num_workers(problem: &Problem, max_workers: usize) -> (num_workers: usize)
    ensures
        num_workers == if workers_for(problem.spec_num_vars()) <= max_workers {
            workers_for(problem.spec_num_vars())
        } else {
            max_workers as nat
        },
{
    let num_vars = problem.num_vars();
    let mut num_workers: usize = 1;
    if num_vars >= 250 {
        num_workers = 16;
    } else if num_vars >= 200 {
        num_workers = 12;
    } else if num_vars >= 100 {
        num_workers = 8;
    }
    if num_workers <= max_workers {
        num_workers
    } else {
        max_workers
    }
}

/// The number of decisions at which to split the search so that each of
/// `num_workers` workers gets a branch: the binary logarithm of their
/// number, rounded up. Nothing if the formula has fewer variables than
/// that: it is too small to be split.
pub fn calculate_optimal_splits(problem: &Problem, num_workers: usize) -> (splits: Option<usize>)
    ensures
        splits == if ceil_log2(num_workers as nat) > problem.spec_num_vars() {
            None
        } else {
            Some(ceil_log2(num_workers as nat) as usize)
        },
{
    let num_splits = ilog2_ceil(num_workers);
    if num_splits > problem.num_vars() {
        None
    } else {
        Some(num_splits)
    }
}

/// The depth that gives at least `num_workers` branches, as far as the
/// variables go.
pub fn calculate_depth(num_workers: usize, num_vars: usize) -> (depth: usize)
    ensures
        depth == if ceil_log2(num_workers as nat) <= num_vars {
            ceil_log2(num_workers as nat)
        } else {
            num_vars as nat
        },
{
    let depth = ilog2_ceil(num_workers);
    if depth <= num_vars {
        depth
    } else {
        num_vars
    }
}

/// What the pool does with a thing that the cube generator hands out.
#[derive(Debug)]
pub enum Dispatch {
    /// Raise the flag and hand the solution to the caller.
    Solution(Vec<bool>),
    /// Raise the flag: the formula is refuted.
    Refuted,
    /// Send the branch to the workers.
    Job(SubProblem),
}

/// What to do with a result of the cube generator for problem `pid`: a
/// satisfying assignment is the solution, a refutation ends the search, a
/// cube becomes a job for the workers.
pub fn dispatch(result: CubeGenerationResult, pid: usize) -> (action: Dispatch)
    ensures
        match result {
            CubeGenerationResult::SAT(values) => action == Dispatch::Solution(values),
            CubeGenerationResult::UNSAT => action == Dispatch::Refuted,
            CubeGenerationResult::Cube(path) => action == Dispatch::Job(
                SubProblem { pid, initial_decision: path },
            ),
        },
{
    match result {
        CubeGenerationResult::SAT(values) => Dispatch::Solution(values),
        CubeGenerationResult::UNSAT => Dispatch::Refuted,
        CubeGenerationResult::Cube(path) => Dispatch::Job(SubProblem::new(pid, path)),
    }
}

/// What the pool does while it waits for the workers.
#[derive(Debug)]
pub enum AwaitStep {
    /// A worker has sent a solution.
    Sat(Vec<bool>),
    /// No worker is busy and no job is left: the formula is refuted.
    Unsat,
    /// Wait and look again.
    Wait,
}

/// One look at the state of the pool: a solution that has arrived ends the
/// wait; so does the sight of no busy worker and no pending job, which
/// means that every branch is refuted.
pub fn await_step(received: Option<Vec<bool>>, num_active: usize, pending_subproblems: usize) -> (step:
    AwaitStep)
    ensures
        match received {
            Some(solution) => step == AwaitStep::Sat(solution),
            None => step == if num_active == 0 && pending_subproblems == 0 {
                AwaitStep::Unsat
            } else {
                AwaitStep::Wait
            },
        },
{
    match received {
        Some(solution) => AwaitStep::Sat(solution),
        None => if num_active == 0 && pending_subproblems == 0 {
            AwaitStep::Unsat
        } else {
            AwaitStep::Wait
        },
    }
}

/// With no variable assigned, the falsified clauses are the empty ones.
pub proof fn lemma_unassigned_conflict_free(formula: Seq<Seq<Lit>>, num_vars: nat)
    requires
        crate::models::formula_in_range(formula, num_vars),
    ensures
        conflict_free(formula, path_assignment(Seq::empty(), num_vars)) <==> no_empty_clause(
            formula,
        ),
{
    let state = path_assignment(Seq::<Lit>::empty(), num_vars);
    if no_empty_clause(formula) {
        assert forall|c: int| 0 <= c < formula.len() implies !clause_falsified(
            state,
            #[trigger] formula[c],
        ) by {
            assert(formula[c].len() > 0);
            assert(crate::clause::clause_in_range(formula[c], num_vars));
            assert(formula[c][0].spec_var() < num_vars);
            assert(!crate::clause::lit_false(state, formula[c][0]));
        }
    }
    if conflict_free(formula, state) {
        assert forall|c: int| 0 <= c < formula.len() implies (#[trigger] formula[c]).len()
            > 0 by {
            assert(!clause_falsified(state, formula[c]));
        }
    }
}

/// Solves the formula on the calling thread. The formula must have a
/// variable.
///
/// An assignment returned satisfies the formula if no clause is empty.
/// Nothing is returned only if the formula has no model. So for a formula
/// without an empty clause, an assignment is returned exactly if the
/// formula has a model. Which assignment it is follows from the formula:
/// it is the outcome of the search from a fresh start.
pub fn solve_single_threaded(problem: &Problem) -> (solution: Option<Vec<bool>>)
    requires
        problem.wf(),
        problem.spec_num_vars() > 0,
    ensures
        solution matches Some(values) ==> values@.len() == problem.spec_num_vars() && (
        no_empty_clause(problem.spec_clauses()) ==> is_model(
            problem.spec_clauses(),
            problem.spec_num_vars(),
            values@,
        )),
        solution is None ==> forall|model: Seq<bool>|
            !is_model(problem.spec_clauses(), problem.spec_num_vars(), model),
        no_empty_clause(problem.spec_clauses()) ==> (solution is Some <==> exists|
            model: Seq<bool>,
        | is_model(problem.spec_clauses(), problem.spec_num_vars(), model)),
            exists|fuel: nat| #[trigger]
                crate::run::search(
                    fuel,
                    problem.spec_clauses(),
                    crate::run::fresh_start(problem.spec_num_vars(), problem.spec_var_scores()),
                ) == Some(
                    match solution {
                        Some(values) => Some(values@),
                        None => None::<Seq<bool>>,
                    },
                ),
{
    let empty_path = DecisionPath(Vec::new());
    let mut solver = DPLLSolver::with_decisions(problem, &empty_path);
    let ghost start = solver@;
    proof {
        assert(start.trail =~= Seq::<usize>::empty());
        assert(start.marks =~= Seq::<usize>::empty());
        assert(solver.state() == crate::run::fresh_start(
            problem.spec_num_vars(),
            problem.spec_var_scores(),
        ));
        problem.lemma_wf();
        lemma_unassigned_conflict_free(problem.spec_clauses(), problem.spec_num_vars());
        assert(start.trail.len() == 0);
    }
    let solution = solver.solve();
    proof {
        if solution is Some && no_empty_clause(problem.spec_clauses()) {
            assert(is_model(problem.spec_clauses(), problem.spec_num_vars(), solution->0@));
        }
        if solution is None {
            assert forall|model: Seq<bool>|
                !is_model(problem.spec_clauses(), problem.spec_num_vars(), model) by {
                lemma_theory_models(
                    problem.spec_clauses(),
                    Seq::empty(),
                    problem.spec_num_vars(),
                    model,
                );
                if is_model(problem.spec_clauses(), problem.spec_num_vars(), model) {
                    assert(crate::models::agrees(model, start, start.initial_level as int));
                }
            }
        }
    }
    solution
}

/// A way to solve a formula with a pool of workers.
pub trait WorkerPoolStrategy {
    /// Solves the formula, which must have a variable.
    fn submit(&self, problem: &Problem) -> (solution: Option<Vec<bool>>)
        requires
            problem.wf(),
            problem.spec_num_vars() > 0,
    ;
}

/// The pool of one: the calling thread does the work.
pub struct SingleThreadedWorkerPool {}

impl WorkerPoolStrategy for SingleThreadedWorkerPool {
    fn submit(&self, problem: &Problem) -> (solution: Option<Vec<bool>>)
        ensures
            solution matches Some(values) ==> values@.len() == problem.spec_num_vars() && (
            no_empty_clause(problem.spec_clauses()) ==> is_model(
                problem.spec_clauses(),
                problem.spec_num_vars(),
                values@,
            )),
            solution is None ==> forall|model: Seq<bool>|
                !is_model(problem.spec_clauses(), problem.spec_num_vars(), model),
            no_empty_clause(problem.spec_clauses()) ==> (solution is Some <==> exists|
                model: Seq<bool>,
            | is_model(problem.spec_clauses(), problem.spec_num_vars(), model)),
            exists|fuel: nat| #[trigger]
                crate::run::search(
                    fuel,
                    problem.spec_clauses(),
                    crate::run::fresh_start(problem.spec_num_vars(), problem.spec_var_scores()),
                ) == Some(
                    match solution {
                        Some(values) => Some(values@),
                        None => None::<Seq<bool>>,
                    },
                ),
    {
        solve_single_threaded(problem)
    }
}

} // verus!
