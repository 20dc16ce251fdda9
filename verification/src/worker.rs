//! What a worker does with a branch of the search: it runs the solver,
//! lets its strategy look at every decision, and lets the strategy cut
//! the backtracking short where another worker has taken over.

use crate::decision_path::{path_distinct, path_in_range, DecisionPath};
use crate::dpll::{DPLLSolver, SolverAction};
use crate::lit::Lit;
use crate::models::{
    agrees, base_refuted, is_model, lemma_backtrack_progress, lemma_marks_bounded_or_empty,
    lemma_progress_bound, lemma_same_upto, lemma_same_upto_chain, pow3, progress, same_upto,
    value_at,
};
use crate::opt_bool::OptBool;
use crate::partial_assignment::{solution_of, BacktrackResult};
use crate::problem::{formula_satisfied_by, Problem};
use crate::signals::is_set;
use crate::stealing::StealEvent;
use std::sync::atomic::AtomicBool;
use std::sync::atomic::AtomicUsize;
use vstd::prelude::*;

verus! {

/// What a worker found when it looked for a new branch to search.
pub enum NewWork<'p> {
    /// A branch: the literal that its last decision has made false, and a
    /// solver that starts from its decisions.
    Found(Lit, DPLLSolver<'p>),
    /// There is nothing to be had any more.
    GiveUp,
    /// There is nothing at the moment: wait like this and look again.
    Retry(crate::utils::BackoffStep),
}

/// The policy of a worker: what it does besides searching.
///
/// Each hook comes with a relation that says how the strategy stands after
/// the hook, and what the hook has returned. A strategy states in these
/// relations what it does, and a worker hands them on unchanged.
pub trait WorkerStrategy {
    /// What the strategy keeps true of itself.
    spec fn wf(&self) -> bool;

    /// How the strategy stands, as `next`, once it was told of a new
    /// problem.
    spec fn told_problem(&self, problem: &Problem, next: &Self) -> bool;

    /// How the strategy stands, as `next`, once it was told that the
    /// search of a new branch is about to start.
    spec fn told_subproblem(&self, solver: &DPLLSolver, next: &Self) -> bool;

    /// How the strategy stands, as `next`, once it has looked at a
    /// decision.
    spec fn told_decision(&self, solver: &DPLLSolver, next: &Self) -> bool;

    /// What a look for a new branch may bring, and how the strategy stands
    /// after it, as `next`.
    spec fn looked_for_work(&self, problem: &Problem, work: &NewWork, next: &Self) -> bool;

    /// Whether the strategy may call a halt before the next level is
    /// undone, and how it stands after the question, as `next`.
    spec fn asked_to_halt(&self, solver: &DPLLSolver, stop: bool, next: &Self) -> bool;

    /// What the strategy hands over as its record, and how it stands then,
    /// as `next`.
    spec fn handed_over(&self, taken: Seq<StealEvent>, next: &Self) -> bool;

    /// Hands over what the strategy has put on record, oldest first.
    fn hand_over_record(&mut self) -> (taken: Vec<StealEvent>)
        requires
            old(self).wf(),
        ensures
            final(self).wf(),
            old(self).handed_over(taken@, final(self)),
    ;

    /// A new problem has arrived.
    fn on_new_problem(&mut self, problem: &Problem)
        requires
            old(self).wf(),
            problem.wf(),
        ensures
            final(self).wf(),
            old(self).told_problem(problem, final(self)),
    ;

    /// The search of a new branch is about to start.
    fn on_new_subproblem(&mut self, solver: &DPLLSolver)
        requires
            old(self).wf(),
            solver.wf(),
        ensures
            final(self).wf(),
            old(self).told_subproblem(solver, final(self)),
    ;

    /// The solver has just made a decision.
    fn after_decision(&mut self, solver: &DPLLSolver)
        requires
            old(self).wf(),
            solver.wf(),
        ensures
            final(self).wf(),
            old(self).told_decision(solver, final(self)),
    ;

    /// One try to get a new branch after the present one is done.
    fn find_new_work<'p>(
        &mut self,
        problem: &'p Problem,
        solution_found_flag: &AtomicBool,
        num_active_workers: &AtomicUsize,
    ) -> (work: NewWork<'p>)
        requires
            old(self).wf(),
            problem.wf(),
        ensures
            final(self).wf(),
            work matches NewWork::Found(falsified, solver) ==> {
                &&& solver.wf()
                &&& solver.formula() == problem.spec_clauses()
                &&& solver.num_vars() == problem.spec_num_vars()
                &&& solver.lit_in_range(falsified)
                &&& solver.search_ok(seq![falsified], Set::empty())
            },
            old(self).looked_for_work(problem, &work, final(self)),
    ;

    /// Whether to stop backtracking here, before the next level is undone.
    fn should_stop_backtracking_early(&mut self, solver: &DPLLSolver) -> (stop: bool)
        requires
            old(self).wf(),
            solver.wf(),
        ensures
            final(self).wf(),
            old(self).asked_to_halt(solver, stop, final(self)),
    ;
}

/// The worker that keeps to itself: it never shares work and never stops
/// early.
pub struct BasicWorker {}

impl WorkerStrategy for BasicWorker {
    open spec fn wf(&self) -> bool {
        true
    }

    /// Nothing changes.
    open spec fn told_problem(&self, problem: &Problem, next: &Self) -> bool {
        *next == *self
    }

    /// Nothing changes.
    open spec fn told_subproblem(&self, solver: &DPLLSolver, next: &Self) -> bool {
        *next == *self
    }

    /// Nothing changes.
    open spec fn told_decision(&self, solver: &DPLLSolver, next: &Self) -> bool {
        *next == *self
    }

    /// There is never anything to be had.
    open spec fn looked_for_work(&self, problem: &Problem, work: &NewWork, next: &Self) -> bool {
        *work is GiveUp && *next == *self
    }

    /// The worker never stops early.
    open spec fn asked_to_halt(&self, solver: &DPLLSolver, stop: bool, next: &Self) -> bool {
        !stop && *next == *self
    }

    /// There is never anything on record.
    open spec fn handed_over(&self, taken: Seq<StealEvent>, next: &Self) -> bool {
        taken == Seq::<StealEvent>::empty() && *next == *self
    }

    /// Hands over an empty record.
    fn hand_over_record(&mut self) -> (taken: Vec<StealEvent>) {
        Vec::new()
    }

    /// Does nothing.
    fn on_new_problem(&mut self, problem: &Problem) {
    }

    /// Does nothing.
    fn on_new_subproblem(&mut self, solver: &DPLLSolver) {
    }

    /// Does nothing.
    fn after_decision(&mut self, solver: &DPLLSolver) {
    }

    /// Gives up at once: this worker takes no work from others.
    fn find_new_work<'p>(
        &mut self,
        problem: &'p Problem,
        solution_found_flag: &AtomicBool,
        num_active_workers: &AtomicUsize,
    ) -> (work: NewWork<'p>)
        ensures
            work is GiveUp,
    {
        NewWork::GiveUp
    }

    /// Never stops early.
    fn should_stop_backtracking_early(&mut self, solver: &DPLLSolver) -> (stop: bool)
        ensures
            !stop,
    {
        false
    }
}

/// How the search of a branch ended.
#[derive(Debug)]
pub enum SearchEnd {
    /// A total assignment was found.
    Solved(Vec<bool>),
    /// The flag was raised: another worker has found a solution.
    Cancelled,
    /// The worker has nothing left to do on the branch.
    Exhausted,
}

/// A worker: an id and a strategy.
pub struct WorkerCore<S: WorkerStrategy> {
    _id: usize,
    strat: S,
}

impl<S: WorkerStrategy> WorkerCore<S> {
    /// What the worker keeps true of itself: what its strategy does.
    pub closed spec fn wf(&self) -> bool {
        self.strat.wf()
    }

    /// The id that the worker was made with.
    pub closed spec fn spec_id(&self) -> usize {
        self._id
    }

    /// The strategy of the worker, as it stands.
    pub closed spec fn strategy(&self) -> &S {
        &self.strat
    }

    /// A worker with the given strategy.
    pub fn new(id: usize, behavior: S) -> (worker: WorkerCore<S>)
        requires
            behavior.wf(),
        ensures
            worker.wf(),
            worker.spec_id() == id,
            *worker.strategy() == behavior,
    {
        WorkerCore { _id: id, strat: behavior }
    }

    /// The id of the worker.
    pub fn id(&self) -> (id: usize)
        ensures
            id == self.spec_id(),
    {
        self._id
    }

    /// Hands over what the strategy has put on record, oldest first.
    pub fn take_record(&mut self) -> (taken: Vec<StealEvent>)
        requires
            old(self).wf(),
        ensures
            final(self).wf(),
            final(self).spec_id() == old(self).spec_id(),
            old(self).strategy().handed_over(taken@, final(self).strategy()),
    {
        self.strat.hand_over_record()
    }

    /// Tells the strategy of a new problem: the strategy then stands as
    /// its own hook leaves it, and the worker keeps its id.
    pub fn on_new_problem(&mut self, problem: &Problem)
        requires
            old(self).wf(),
            problem.wf(),
        ensures
            final(self).wf(),
            final(self).spec_id() == old(self).spec_id(),
            old(self).strategy().told_problem(problem, final(self).strategy()),
    {
        self.strat.on_new_problem(problem);
    }

    /// Tells the strategy that the search of a new branch is about to
    /// start: the strategy then stands as its own hook leaves it, and the
    /// worker keeps its id.
    pub fn on_new_subproblem(&mut self, solver: &DPLLSolver)
        requires
            old(self).wf(),
            solver.wf(),
        ensures
            final(self).wf(),
            final(self).spec_id() == old(self).spec_id(),
            old(self).strategy().told_subproblem(solver, final(self).strategy()),
    {
        self.strat.on_new_subproblem(solver);
    }

    /// One try of the strategy to get a new branch: what comes back is
    /// what the strategy has found, and the strategy stands as its own
    /// hook leaves it.
    pub fn find_new_work<'p>(
        &mut self,
        problem: &'p Problem,
        solution_found_flag: &AtomicBool,
        num_active_workers: &AtomicUsize,
    ) -> (work: NewWork<'p>)
        requires
            old(self).wf(),
            problem.wf(),
        ensures
            final(self).wf(),
            final(self).spec_id() == old(self).spec_id(),
            work matches NewWork::Found(falsified, solver) ==> {
                &&& solver.wf()
                &&& solver.formula() == problem.spec_clauses()
                &&& solver.num_vars() == problem.spec_num_vars()
                &&& solver.lit_in_range(falsified)
                &&& solver.search_ok(seq![falsified], Set::empty())
            },
            old(self).strategy().looked_for_work(problem, &work, final(self).strategy()),
    {
        self.strat.find_new_work(problem, solution_found_flag, num_active_workers)
    }

    /// Starts the search of the branch that the decisions lead to: builds
    /// the solver, makes the first decision, and runs the search. The path
    /// must leave a variable undecided.
    ///
    /// An assignment found holds the decisions of the path, and satisfies
    /// the formula if the decisions falsify no clause. Where the search
    /// ends out of branches with no level left to undo, no model of the
    /// formula holds the decisions.
    pub fn solve_subproblem<'p>(
        &mut self,
        problem: &'p Problem,
        initial_decision: &DecisionPath,
        solution_found_flag: &AtomicBool,
    ) -> (end: (SearchEnd, DPLLSolver<'p>))
        requires
            old(self).wf(),
            problem.wf(),
            path_in_range(initial_decision@, problem.spec_num_vars()),
            path_distinct(initial_decision@),
            initial_decision@.len() < problem.spec_num_vars(),
        ensures
            final(self).wf(),
            end.1.wf(),
            end.1.formula() == problem.spec_clauses(),
            end.1.is_vetted() == crate::models::conflict_free(
                problem.spec_clauses(),
                crate::decision_path::path_assignment(initial_decision@, problem.spec_num_vars()),
            ),
            end.0 matches SearchEnd::Solved(values) ==> {
                &&& values@.len() == problem.spec_num_vars()
                &&& forall|i: int|
                    0 <= i < initial_decision@.len() ==> (
                    #[trigger] initial_decision@[i]).spec_eval_with(
                        values@[initial_decision@[i].spec_var() as int],
                    )
                &&& end.1.is_vetted() ==> formula_satisfied_by(problem.spec_clauses(), values@)
            },
            end.0 is Exhausted ==> end.1.search_failed() && (!end.1@.can_backtrack() ==> forall|
                model: Seq<bool>,
            |
                is_model(problem.spec_clauses(), problem.spec_num_vars(), model) ==> exists|i: int|
                    0 <= i < initial_decision@.len() && !(
                    #[trigger] initial_decision@[i]).spec_eval_with(
                        model[initial_decision@[i].spec_var() as int],
                    )),
    {
        let mut solver = DPLLSolver::with_decisions(problem, initial_decision);
        let ghost start = solver@;
        proof {
            solver.lemma_wf();
            crate::decision_path::lemma_path_assignment(
                initial_decision@,
                problem.spec_num_vars(),
            );
        }
        self.strat.on_new_subproblem(&solver);
        let falsified_lit = solver.make_branching_decision();
        self.strat.after_decision(&solver);
        proof {
            solver.lemma_wf();
            start.lemma_assign_wf(falsified_lit.spec_var(), true);
            crate::models::lemma_append_same(start, falsified_lit.spec_var(), true);
            crate::models::lemma_same_upto_shrinks(
                start,
                solver@,
                start.trail.len() as int,
                start.initial_level as int,
            );
        }
        let ghost decided = solver@;
        let end = self.search(&mut solver, falsified_lit, solution_found_flag);
        proof {
            lemma_same_upto_chain(start, decided, solver@, start.initial_level as int);
            let path = initial_decision@;
            match &end {
                SearchEnd::Solved(values) => {
                    assert forall|i: int| 0 <= i < path.len() implies (
                    #[trigger] path[i]).spec_eval_with(values@[path[i].spec_var() as int]) by {
                        assert(start.trail[i] == path[i].spec_var());
                        assert(values@[start.trail[i] as int] == value_at(start, i));
                    }
                },
                SearchEnd::Exhausted => {
                    if !solver@.can_backtrack() {
                        assert forall|model: Seq<bool>|
                            is_model(
                                problem.spec_clauses(),
                                problem.spec_num_vars(),
                                model,
                            ) implies exists|i: int|
                            0 <= i < path.len() && !(#[trigger] path[i]).spec_eval_with(
                                model[path[i].spec_var() as int],
                            ) by {
                            crate::models::lemma_theory_models(
                                problem.spec_clauses(),
                                Seq::empty(),
                                problem.spec_num_vars(),
                                model,
                            );
                            lemma_same_upto(solver.theory(), start, decided, start.initial_level as int);
                            assert(!agrees(model, start, start.initial_level as int));
                            let j = choose|j: int|
                                0 <= j < start.initial_level && model[(
                                #[trigger] start.trail[j]) as int] != value_at(start, j);
                            assert(start.trail[j] == path[j].spec_var());
                        }
                    }
                },
                SearchEnd::Cancelled => {},
            }
        }
        (end, solver)
    }

    /// Runs the search from the literal that has just become false, until
    /// it is solved, cancelled by the flag, or out of branches. After every
    /// decision the strategy has a look.
    ///
    /// An assignment found holds the initial decisions of the solver, and
    /// satisfies the formula if the solver is vetted. Where the search ends
    /// out of branches with no level left to undo, no model of what was
    /// left to search holds the initial decisions.
    pub fn search(&mut self, solver: &mut DPLLSolver, falsified_lit: Lit, solution_found_flag: &AtomicBool) -> (end:
        SearchEnd)
        requires
            old(self).wf(),
            old(solver).wf(),
            old(solver).lit_in_range(falsified_lit),
            old(solver).search_ok(seq![falsified_lit], Set::empty()),
        ensures
            final(self).wf(),
            final(solver).wf(),
            final(solver).formula() == old(solver).formula(),
            final(solver).num_vars() == old(solver).num_vars(),
            final(solver).is_vetted() == old(solver).is_vetted(),
            final(solver).is_saturated() == old(solver).is_saturated(),
            final(solver).handed_out() == old(solver).handed_out(),
            same_upto(old(solver)@, final(solver)@, old(solver)@.initial_level as int),
            end matches SearchEnd::Solved(values) ==> {
                &&& values@.len() == old(solver).num_vars()
                &&& values@ == solution_of(final(solver)@.state)
                &&& agrees(values@, old(solver)@, old(solver)@.initial_level as int)
                &&& old(solver).is_vetted() ==> formula_satisfied_by(old(solver).formula(), values@)
            },
            end is Exhausted ==> final(solver).search_failed() && (!final(solver)@.can_backtrack()
                ==> base_refuted(old(solver).theory(), old(solver)@)),
    {
        let ghost start = solver@;
        let ghost depth = solver.num_vars();
        let mut falsified_lit = falsified_lit;
        proof {
            solver.lemma_wf();
            lemma_marks_bounded_or_empty(start);
            assert(same_upto(start, start, start.initial_level as int));
        }
        loop
            invariant
                self.wf(),
                solver.wf(),
                start == old(solver)@,
                start.wf(),
                depth == solver.num_vars(),
                solver.num_vars() == old(solver).num_vars(),
                solver.formula() == old(solver).formula(),
                solver.is_vetted() == old(solver).is_vetted(),
                solver.is_saturated() == old(solver).is_saturated(),
                solver.handed_out() == old(solver).handed_out(),
                solver.search_ok(seq![falsified_lit], Set::empty()),
                solver.lit_in_range(falsified_lit),
                same_upto(start, solver@, start.initial_level as int),
            decreases pow3(depth) - progress(solver@, solver@.marks.len() as int, depth),
        {
            let ghost here = solver@;
            proof {
                solver.lemma_wf();
                lemma_marks_bounded_or_empty(here);
                lemma_progress_bound(here, depth);
            }
            if is_set(solution_found_flag) {
                return SearchEnd::Cancelled;
            }
            match solver.step(falsified_lit) {
                SolverAction::SAT => {
                    let values = solver.assignment().to_solution();
                    proof {
                        solver.lemma_wf();
                        let now = solver@;
                        lemma_same_upto_chain(start, here, now, start.initial_level as int);
                        now.lemma_trail_counts_assigned();
                        assert forall|v: int| 0 <= v < now.state.len() implies now.state[v]
                            != OptBool::Unassigned by {
                            assert(now.assigned(v));
                        }
                        if solver.is_vetted() {
                            crate::models::lemma_complete_is_model(solver.formula(), now.state);
                        }
                        assert forall|j: int| 0 <= j < start.initial_level implies values@[(
                        #[trigger] start.trail[j]) as int] == value_at(start, j) by {
                            assert(start.trail[j] == now.trail[j]);
                            assert(now.state[now.trail[j] as int] != OptBool::Unassigned);
                        }
                    }
                    return SearchEnd::Solved(values);
                },
                SolverAction::Decision(next_falsified_lit) => {
                    proof {
                        solver.lemma_wf();
                        lemma_marks_bounded_or_empty(solver@);
                        lemma_progress_bound(solver@, depth);
                        lemma_same_upto_chain(start, here, solver@, start.initial_level as int);
                    }
                    falsified_lit = next_falsified_lit;
                    self.strat.after_decision(solver);
                },
                SolverAction::Backtrack => {
                    let ghost failed = solver@;
                    proof {
                        solver.lemma_wf();
                        lemma_same_upto_chain(start, here, failed, start.initial_level as int);
                        lemma_marks_bounded_or_empty(failed);
                    }
                    match self.backtrack(solver) {
                        Some(new_falsified_lit) => {
                            proof {
                                solver.lemma_wf();
                                lemma_backtrack_progress(failed, depth);
                                lemma_marks_bounded_or_empty(solver@);
                                lemma_progress_bound(solver@, depth);
                                lemma_same_upto_chain(
                                    start,
                                    failed,
                                    solver@,
                                    start.initial_level as int,
                                );
                            }
                            falsified_lit = new_falsified_lit;
                        },
                        None => {
                            proof {
                                lemma_same_upto_chain(
                                    start,
                                    failed,
                                    solver@,
                                    start.initial_level as int,
                                );
                                if !solver@.can_backtrack() {
                                    lemma_same_upto(
                                        solver.theory(),
                                        start,
                                        failed,
                                        start.initial_level as int,
                                    );
                                    assert forall|model: Seq<bool>|
                                        #![trigger agrees(model, start, start.initial_level as int)]
                                        is_model(
                                            solver.theory(),
                                            start.state.len(),
                                            model,
                                        ) implies !agrees(
                                        model,
                                        start,
                                        start.initial_level as int,
                                    ) by {
                                        assert(!agrees(model, failed, failed.initial_level as int));
                                    }
                                }
                            }
                            return SearchEnd::Exhausted;
                        },
                    }
                },
            }
        }
    }

    /// Backtracks level by level until a decision is switched to its second
    /// branch, and returns the literal that this has made false. Before
    /// each level the strategy may call a halt. Nothing is returned after a
    /// halt, and when no level is left to undo.
    pub fn backtrack(&mut self, solver: &mut DPLLSolver) -> (falsified: Option<Lit>)
        requires
            old(self).wf(),
            old(solver).wf(),
            old(solver).search_failed(),
        ensures
            final(self).wf(),
            final(solver).wf(),
            final(solver).formula() == old(solver).formula(),
            final(solver).num_vars() == old(solver).num_vars(),
            final(solver).is_vetted() == old(solver).is_vetted(),
            final(solver).is_saturated() == old(solver).is_saturated(),
            final(solver).handed_out() == old(solver).handed_out(),
            same_upto(old(solver)@, final(solver)@, old(solver)@.initial_level as int),
            falsified matches Some(lit) ==> {
                &&& final(solver).search_ok(seq![lit], Set::empty())
                &&& final(solver).lit_in_range(lit)
                &&& final(solver)@ == old(solver)@.backtracked()
                &&& old(solver)@.backtrack_result() == Some(lit)
            },
            falsified is None ==> final(solver).search_failed() && (!final(solver)@.can_backtrack()
                ==> base_refuted(old(solver).theory(), old(solver)@)),
    {
        let ghost start = solver@;
        proof {
            solver.lemma_wf();
            lemma_marks_bounded_or_empty(start);
            assert(same_upto(start, start, start.initial_level as int));
        }
        loop
            invariant
                self.wf(),
                solver.wf(),
                start == old(solver)@,
                start.wf(),
                solver.formula() == old(solver).formula(),
                solver.num_vars() == old(solver).num_vars(),
                solver.is_vetted() == old(solver).is_vetted(),
                solver.is_saturated() == old(solver).is_saturated(),
                solver.handed_out() == old(solver).handed_out(),
                solver.search_failed(),
                same_upto(start, solver@, start.initial_level as int),
                solver@.backtracked() == start.backtracked(),
                solver@.backtrack_result() == start.backtrack_result(),
                base_refuted(solver.theory(), solver@) ==> base_refuted(solver.theory(), start),
            decreases solver@.marks.len(),
        {
            let ghost here = solver@;
            proof {
                solver.lemma_wf();
                here.lemma_backtracked_once_wf();
            }
            if self.strat.should_stop_backtracking_early(solver) {
                proof {
                    if !here.can_backtrack() {
                        crate::models::lemma_exhausted(solver.theory(), here);
                    }
                }
                return None;
            }
            match solver.backtrack_one_level() {
                BacktrackResult::TryAlternative(new_falsified_lit) => {
                    proof {
                        assert(here.backtracked() == here.backtracked_once());
                        crate::models::lemma_backtrack_same(here);
                        crate::models::lemma_same_upto_shrinks(
                            here,
                            solver@,
                            here.marks.last() as int,
                            start.initial_level as int,
                        );
                        lemma_same_upto_chain(start, here, solver@, start.initial_level as int);
                    }
                    return Some(new_falsified_lit);
                },
                BacktrackResult::NoMoreDecisions => {
                    return None;
                },
                BacktrackResult::ContinueBacktracking => {
                    proof {
                        assert(here.backtracked() == here.popped().backtracked());
                        assert(here.backtrack_result() == here.popped().backtrack_result());
                        crate::models::lemma_backtrack_same(here);
                        crate::models::lemma_same_upto_shrinks(
                            here,
                            solver@,
                            here.marks.last() as int,
                            start.initial_level as int,
                        );
                        lemma_same_upto_chain(start, here, solver@, start.initial_level as int);
                        if base_refuted(solver.theory(), solver@) {
                            lemma_same_upto(
                                solver.theory(),
                                here,
                                solver@,
                                start.initial_level as int,
                            );
                            assert forall|model: Seq<bool>|
                                #![trigger agrees(model, here, here.initial_level as int)]
                                is_model(
                                    solver.theory(),
                                    here.state.len(),
                                    model,
                                ) implies !agrees(model, here, here.initial_level as int) by {
                                assert(!agrees(model, solver@, solver@.initial_level as int));
                            }
                        }
                    }
                },
            }
        }
    }
}

} // verus!
