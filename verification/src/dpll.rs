//! The search: unit propagation, branching on the most active variable,
//! and chronological backtracking.

use crate::clause::{clause_falsified, clause_in_range, lemma_unit_state, ClauseState};
use crate::decision_path::{path_assignment, path_distinct, path_in_range, DecisionPath};
use crate::lit::{Lit, VariableId, MAX_VARS};
use crate::models::{
    agrees, all_justified, base_refuted, conflict_free, covered, dead, formula_in_range,
    lemma_append_justified, lemma_append_levels_safe, lemma_append_same, lemma_assign_covered,
    lemma_backtrack_progress, lemma_backtrack_safe, lemma_backtrack_same, lemma_backtracked,
    lemma_complete_is_model, lemma_conflict_dead, lemma_covered_quiet, lemma_decide_progress,
    lemma_exhausted,
    lemma_flip_justified, lemma_marks_bounded_or_empty, lemma_pop_dead, lemma_progress_bound,
    lemma_same_upto, lemma_same_upto_chain, lemma_same_upto_levels, lemma_same_upto_shrinks,
    lemma_handed_out_dead, lemma_refines, lemma_theory_refines, lemma_unit_forced,
    levels_safe, pow3, progress, quiet, same_upto, stirred, theory_of, value_at,
};
use crate::opt_bool::OptBool;
use crate::partial_assignment::{
    popped_suffix, solution_of, AssignmentView, BacktrackResult, PartialAssignment,
};
use crate::problem::{formula_satisfied_by, lit_occurrences, Problem};
use crate::run::{
    after_conflict, after_propagation, all_ids, decision, is_top_unassigned, lemma_top_unassigned,
    propagation, search, search_from, step_of, vars_of, Propagation, SearchState, Step,
};
use crate::store::MAX_CLAUSES_PER_VAR;
use crate::vsids::{Activity, ACTIVITY_LIMIT, ACTIVITY_ONE, VSIDS};
use vstd::prelude::*;

verus! {

/// What the search does next.
#[derive(Debug, Clone, Copy, PartialEq, Eq, Structural)]
pub enum SolverAction {
    /// Every variable has a value and no clause is falsified.
    SAT,
    /// A clause is falsified: the last decision must be undone.
    Backtrack,
    /// A decision was made. The literal is the one that it made false.
    Decision(Lit),
}

/// How a round of unit propagation ended.
#[derive(Debug, Clone, Copy, PartialEq, Eq, Structural)]
pub enum UnitPropagationResult {
    /// Every variable has a value and no clause is falsified.
    SAT,
    /// A clause is falsified.
    UNSAT,
    /// No clause is falsified and some variable has no value yet.
    Undecided,
}

/// The ids of `listed` from place `from` on.
pub open spec fn listed_from(listed: Seq<usize>, from: int) -> Set<int> {
    Set::new(|c: int| exists|i: int| from <= i < listed.len() && listed[i] == c)
}

/// All ids from `from` on.
pub open spec fn ids_from(from: int) -> Set<int> {
    Set::new(|c: int| from <= c)
}

/// More clauses still to look at cover no less.
pub proof fn lemma_covered_widen(
    formula: Seq<Seq<Lit>>,
    state: Seq<OptBool>,
    pending: Seq<Lit>,
    fewer: Set<int>,
    more: Set<int>,
    units_count: bool,
)
    requires
        covered(formula, state, pending, fewer, units_count),
        forall|c: int| 0 <= c < formula.len() && fewer.contains(c) ==> more.contains(c),
    ensures
        covered(formula, state, pending, more, units_count),
{
    assert forall|c: int|
        0 <= c < formula.len() && stirred(
            state,
            #[trigger] formula[c],
            units_count,
        ) implies more.contains(c) || exists|k: int|
        0 <= k < pending.len() && formula[c].contains(#[trigger] pending[k]) by {
        if !fewer.contains(c) {
            let k = choose|k: int|
                0 <= k < pending.len() && formula[c].contains(#[trigger] pending[k]);
            assert(formula[c].contains(pending[k]));
        }
    }
}

/// What a run of the search from the assignment `a` may return: an
/// assignment that holds the initial decisions and satisfies the formula,
/// or nothing if no model holds the initial decisions.
pub open spec fn outcome_ok(
    formula: Seq<Seq<Lit>>,
    a: AssignmentView,
    outcome: Option<Seq<bool>>,
) -> bool {
    match outcome {
        Some(values) => values.len() == a.state.len() && agrees(
            values,
            a,
            a.initial_level as int,
        ) && formula_satisfied_by(formula, values),
        None => base_refuted(formula, a),
    }
}

/// Two runs of the search from the same start come to the same verdict,
/// whatever the order in which they branch. Where both find an assignment,
/// the two agree on every variable that unit propagation forces from the
/// initial decisions.
pub proof fn lemma_verdict_determined(
    formula: Seq<Seq<Lit>>,
    a: AssignmentView,
    first: Option<Seq<bool>>,
    second: Option<Seq<bool>>,
    place: int,
)
    requires
        a.wf(),
        outcome_ok(formula, a, first),
        outcome_ok(formula, a, second),
        a.initial_level <= place < a.trail.len(),
        forall|p: int| a.initial_level <= p <= place ==> crate::models::forced(formula, a, p),
    ensures
        first is Some <==> second is Some,
        first is Some ==> first->0[a.trail[place] as int] == second->0[a.trail[place] as int],
{
    if first is Some {
        lemma_forced_value(formula, a, first->0, place);
    }
    if second is Some {
        lemma_forced_value(formula, a, second->0, place);
    }
}

/// A model that holds the initial decisions gives every variable that
/// unit propagation forces from them the forced value.
pub proof fn lemma_forced_value(formula: Seq<Seq<Lit>>, a: AssignmentView, model: Seq<bool>, place: int)
    requires
        crate::models::is_model(formula, a.state.len(), model),
        agrees(model, a, a.initial_level as int),
        a.initial_level <= place < a.trail.len(),
        forall|p: int| a.initial_level <= p <= place ==> crate::models::forced(formula, a, p),
    ensures
        agrees(model, a, place + 1),
        model[a.trail[place] as int] == value_at(a, place),
    decreases place - a.initial_level,
{
    if place > a.initial_level {
        lemma_forced_value(formula, a, model, place - 1);
    }
    assert(crate::models::forced(formula, a, place));
    assert(agrees(model, a, place));
}

/// An assignment that the search returns passes the check of solutions:
/// the check accepts exactly the assignments that satisfy every clause.
pub proof fn lemma_round_trip(problem: &Problem, a: AssignmentView, values: Seq<bool>)
    requires
        problem.wf(),
        a.state.len() == problem.spec_num_vars(),
        outcome_ok(problem.spec_clauses(), a, Some(values)),
    ensures
        values.len() == problem.spec_num_vars(),
        formula_satisfied_by(problem.spec_clauses(), values),
{
}

/// A solver for one formula, from the decisions it was started with.
pub struct DPLLSolver<'a> {
    problem: &'a Problem,
    pub assignment: PartialAssignment,
    /// The literals that have become false and whose clauses are still to
    /// be looked at. The vector is kept to be used again.
    falsified_lits_buffer: Vec<Lit>,
    pub vsids: VSIDS,
    /// The variables that the last backtracking has unassigned.
    unassigned_buffer: Vec<VariableId>,
    /// Whether it is known that the search overlooks no falsified clause.
    vetted: Ghost<bool>,
    /// Whether it is known that the search overlooks no clause that forces
    /// a literal.
    saturated: Ghost<bool>,
    /// The branches that were handed out as cubes and are searched no more.
    handed_out: Ghost<Seq<Seq<Lit>>>,
}

impl<'a> View for DPLLSolver<'a> {
    type V = AssignmentView;

    /// The assignment that the search has reached.
    closed spec fn view(&self) -> AssignmentView {
        self.assignment.view()
    }
}

impl<'a> DPLLSolver<'a> {
    /// The clauses of the formula.
    pub closed spec fn formula(&self) -> Seq<Seq<Lit>> {
        self.problem.spec_clauses()
    }

    /// The number of variables of the formula.
    pub closed spec fn num_vars(&self) -> nat {
        self.problem.spec_num_vars()
    }

    /// The cubes that were handed out: branches of the search that someone
    /// else takes care of.
    pub closed spec fn handed_out(&self) -> Seq<Seq<Lit>> {
        self.handed_out@
    }

    /// What is left to search: the formula without the cubes handed out.
    pub open spec fn theory(&self) -> Seq<Seq<Lit>> {
        theory_of(self.formula(), self.handed_out())
    }

    /// The activity score of each variable.
    pub closed spec fn scores(&self) -> Seq<u64> {
        self.vsids.activity().scores
    }

    /// Scores and increment of the heuristic.
    pub closed spec fn activity(&self) -> Activity {
        self.vsids.activity()
    }

    /// Where the search stands: the assignment and the activity.
    pub open spec fn state(&self) -> SearchState {
        SearchState { a: self@, activity: self.activity() }
    }

    /// Whether it is known that no falsified clause is overlooked: either
    /// the initial decisions falsified none, or all clauses were looked at
    /// in a round of propagation at the root.
    pub closed spec fn is_vetted(&self) -> bool {
        self.vetted@
    }

    /// Whether it is known, moreover, that no clause that forces a literal
    /// is overlooked: either the initial decisions left no such clause, or
    /// all clauses were looked at in a round of propagation at the root.
    pub closed spec fn is_saturated(&self) -> bool {
        self.saturated@
    }

    /// The formula is well-formed, assignment and heuristic are over its
    /// variables, every level of the assignment has its mark, and every
    /// variable without a value is in the heap.
    pub closed spec fn wf(&self) -> bool {
        &&& self.problem.wf()
        &&& self.assignment.wf()
        &&& self.vsids.wf()
        &&& self.assignment@.num_vars() == self.problem.spec_num_vars()
        &&& self.assignment.unmarked() == 0
        &&& self.vsids.num_vars() == self.problem.spec_num_vars()
        &&& forall|v: usize|
            v < self.problem.spec_num_vars() && !self@.assigned(v as int)
                ==> #[trigger] self.vsids.has(v)
    }

    /// The search can go on once the clauses of the `pending` literals and
    /// the clauses in `rest` have been looked at: every place of the trail
    /// is justified for what is left to search and, if the solver is
    /// vetted, no falsified clause is overlooked; nor is, if the solver is
    /// saturated, a clause that forces a literal.
    pub open spec fn search_ok(&self, pending: Seq<Lit>, rest: Set<int>) -> bool {
        &&& all_justified(self.theory(), self@)
        &&& self.is_vetted() ==> covered(
            self.formula(),
            self@.state,
            pending,
            rest,
            self.is_saturated(),
        ) && levels_safe(self.formula(), self@, self.is_saturated())
    }

    /// The search has run into a conflict or its branch was handed out: no
    /// model of what is left to search agrees with the trail.
    pub open spec fn search_failed(&self) -> bool {
        &&& all_justified(self.theory(), self@)
        &&& dead(self.theory(), self@)
        &&& self.is_vetted() ==> levels_safe(self.formula(), self@, self.is_saturated())
    }

    /// The literal names a variable of the formula.
    pub open spec fn lit_in_range(&self, lit: Lit) -> bool {
        lit.spec_var() < self.num_vars()
    }

    /// What well-formedness means to the outside.
    pub proof fn lemma_wf(&self)
        requires
            self.wf(),
        ensures
            self@.wf(),
            self@.num_vars() == self.num_vars(),
            self.num_vars() <= MAX_VARS,
            self.formula().len() <= usize::MAX,
            formula_in_range(self.formula(), self.num_vars()),
    {
        self.problem.lemma_wf();
        self.assignment.lemma_wf_view();
    }

    /// Propagation runs to its end: where it has settled nothing in a
    /// solver that is vetted and saturated, no clause is falsified and none
    /// forces a literal.
    pub proof fn lemma_propagation_complete(&self)
        requires
            self.wf(),
            self.is_vetted(),
            self.is_saturated(),
            self.search_ok(Seq::empty(), Set::empty()),
        ensures
            forall|c: int|
                0 <= c < self.formula().len() ==> !clause_falsified(
                    self@.state,
                    #[trigger] self.formula()[c],
                ) && !crate::clause::clause_unit(self@.state, self.formula()[c]),
    {
        lemma_covered_quiet(self.formula(), self@.state, true);
        assert forall|c: int| 0 <= c < self.formula().len() implies !clause_falsified(
            self@.state,
            #[trigger] self.formula()[c],
        ) && !crate::clause::clause_unit(self@.state, self.formula()[c]) by {
            assert(!stirred(self@.state, self.formula()[c], true));
        }
    }

    /// The assignment that the search has reached.
    pub fn assignment(&self) -> (assignment: &PartialAssignment)
        requires
            self.wf(),
        ensures
            assignment@ == self@,
            assignment.wf(),
            assignment.unmarked() == 0,
    {
        &self.assignment
    }

    /// The formula that the solver works on.
    pub fn problem(&self) -> (problem: &'a Problem)
        requires
            self.wf(),
        ensures
            problem.wf(),
            problem.spec_clauses() == self.formula(),
            problem.spec_num_vars() == self.num_vars(),
    {
        self.problem
    }

    /// A solver for `problem` that starts from the given decisions.
    pub fn with_decisions(problem: &'a Problem, initial_decisions: &DecisionPath) -> (solver:
        DPLLSolver<'a>)
        requires
            problem.wf(),
            path_in_range(initial_decisions@, problem.spec_num_vars()),
            path_distinct(initial_decisions@),
        ensures
            solver.wf(),
            solver.formula() == problem.spec_clauses(),
            solver.num_vars() == problem.spec_num_vars(),
            solver@.state == path_assignment(
                initial_decisions@,
                problem.spec_num_vars(),
            ),
            solver@.trail == Seq::new(
                initial_decisions@.len(),
                |i: int| initial_decisions@[i].spec_var(),
            ),
            solver@.marks == Seq::new(initial_decisions@.len(), |i: int| i as usize),
            solver@.initial_level == initial_decisions@.len(),
            solver.is_vetted() == conflict_free(
                problem.spec_clauses(),
                path_assignment(initial_decisions@, problem.spec_num_vars()),
            ),
            solver.is_saturated() == quiet(
                problem.spec_clauses(),
                path_assignment(initial_decisions@, problem.spec_num_vars()),
                true,
            ),
            solver.handed_out() == Seq::<Seq<Lit>>::empty(),
            solver.activity() == (Activity {
                scores: problem.spec_var_scores(),
                increment: ACTIVITY_ONE,
            }),
            solver.search_ok(Seq::empty(), Set::empty()),
    {
        proof {
            problem.lemma_wf();
            assert(MAX_CLAUSES_PER_VAR * ACTIVITY_ONE <= ACTIVITY_LIMIT);
        }
        let assignment = PartialAssignment::with_decisions(problem.num_vars(), initial_decisions);
        let vsids = VSIDS::with_scores(problem.var_scores());
        let solver = DPLLSolver {
            problem,
            assignment,
            falsified_lits_buffer: Vec::new(),
            vsids,
            unassigned_buffer: Vec::new(),
            vetted: Ghost(
                conflict_free(
                    problem.spec_clauses(),
                    path_assignment(initial_decisions@, problem.spec_num_vars()),
                ),
            ),
            saturated: Ghost(
                quiet(
                    problem.spec_clauses(),
                    path_assignment(initial_decisions@, problem.spec_num_vars()),
                    true,
                ),
            ),
            handed_out: Ghost(Seq::empty()),
        };
        proof {
            solver.assignment.lemma_wf_view();
            lemma_covered_quiet(solver.formula(), solver@.state, true);
            lemma_covered_quiet(solver.formula(), solver@.state, false);
        }
        solver
    }

    /// A solver for the second branch of the last decision of a path. The
    /// path holds the decisions with the last of them switched already.
    /// Returns the literal that the switch has made false, from which the
    /// search goes on, and the solver.
    ///
    /// The solver is vetted if every clause that the decisions falsify
    /// holds that literal, and saturated if moreover every clause in which
    /// they force a literal does.
    pub fn with_switched_decision(problem: &'a Problem, path: &DecisionPath) -> (start: (
        Lit,
        DPLLSolver<'a>,
    ))
        requires
            problem.wf(),
            path_in_range(path@, problem.spec_num_vars()),
            path_distinct(path@),
            path@.len() > 0,
        ensures
            start.0 == path@.last().spec_inverted(),
            start.1.wf(),
            start.1.formula() == problem.spec_clauses(),
            start.1.num_vars() == problem.spec_num_vars(),
            start.1@.state == path_assignment(path@, problem.spec_num_vars()),
            start.1@.trail == Seq::new(path@.len(), |i: int| path@[i].spec_var()),
            start.1@.marks == Seq::new(path@.len(), |i: int| i as usize),
            start.1@.initial_level == path@.len(),
            start.1@.decisions() == path@,
            start.1.is_vetted() == covered(
                problem.spec_clauses(),
                path_assignment(path@, problem.spec_num_vars()),
                seq![start.0],
                Set::empty(),
                false,
            ),
            start.1.is_saturated() == covered(
                problem.spec_clauses(),
                path_assignment(path@, problem.spec_num_vars()),
                seq![start.0],
                Set::empty(),
                true,
            ),
            start.1.handed_out() == Seq::<Seq<Lit>>::empty(),
            start.1.activity() == (Activity {
                scores: problem.spec_var_scores(),
                increment: ACTIVITY_ONE,
            }),
            start.1.lit_in_range(start.0),
            start.1.search_ok(seq![start.0], Set::empty()),
    {
        let mut solver = DPLLSolver::with_decisions(problem, path);
        let falsified = path.0[path.0.len() - 1].inverted();
        let ghost formula = problem.spec_clauses();
        let ghost state = path_assignment(path@, problem.spec_num_vars());
        solver.vetted = Ghost(covered(formula, state, seq![falsified], Set::empty(), false));
        solver.saturated = Ghost(covered(formula, state, seq![falsified], Set::empty(), true));
        proof {
            crate::decision_path::lemma_path_assignment(path@, problem.spec_num_vars());
            assert forall|level: int| 0 <= level < path@.len() implies solver@.decision_lit(level)
                == path@[level] by {
                assert(solver@.marks[level] == level);
                assert(solver@.trail[level] == path@[level].spec_var());
                assert(state[path@[level].spec_var() as int] == OptBool::of(
                    path@[level].spec_is_pos(),
                ));
                assert(solver@.decision_lit(level).0 == path@[level].0);
            }
            assert(solver@.decisions() =~= path@);
            if solver.is_saturated() {
                assert forall|c: int|
                    0 <= c < formula.len() && stirred(
                        state,
                        #[trigger] formula[c],
                        false,
                    ) implies Set::<int>::empty().contains(c) || exists|k: int|
                    0 <= k < seq![falsified].len() && formula[c].contains(
                        #[trigger] seq![falsified][k],
                    ) by {
                    assert(stirred(state, formula[c], true));
                }
            }
        }
        (falsified, solver)
    }

    /// Runs the search to its end. Returns a total assignment, or nothing if
    /// no total assignment that holds the initial decisions satisfies the
    /// formula. Some variable must be without a value at the start.
    ///
    /// The assignment returned holds the initial decisions. It satisfies
    /// the formula if the solver was vetted.
    ///
    /// What is returned is the outcome of the search as `run` defines it, a
    /// function of formula, assignment and activity at the start.
    pub fn solve(&mut self) -> (solution: Option<Vec<bool>>)
        requires
            old(self).wf(),
            old(self).search_ok(Seq::empty(), Set::empty()),
            old(self)@.trail.len() < old(self).num_vars(),
        ensures
            final(self).wf(),
            final(self).formula() == old(self).formula(),
            final(self).is_vetted() == old(self).is_vetted(),
            final(self).is_saturated() == old(self).is_saturated(),
            final(self).handed_out() == old(self).handed_out(),
            solution matches Some(values) ==> {
                &&& values@.len() == old(self).num_vars()
                &&& values@ == solution_of(final(self)@.state)
                &&& agrees(
                    values@,
                    old(self)@,
                    old(self)@.initial_level as int,
                )
                &&& old(self).is_vetted() ==> formula_satisfied_by(old(self).formula(), values@)
            },
            solution is None ==> base_refuted(old(self).theory(), old(self)@),
            exists|fuel: nat| #[trigger]
                search(fuel, old(self).formula(), old(self).state()) == Some(
                    match solution {
                        Some(values) => Some(values@),
                        None => None::<Seq<bool>>,
                    },
                ),
    {
        let ghost start = self@;
        let ghost depth = self.num_vars();
        let ghost formula = self.formula();
        let ghost origin = self.state();
        proof {
            self.lemma_wf();
            lemma_marks_bounded_or_empty(start);
            assert(same_upto(start, start, start.initial_level as int));
        }
        let mut falsified_lit = self.make_branching_decision();
        let ghost first = self.state();
        let ghost first_lit = falsified_lit;
        let ghost mut steps: nat = 0;
        proof {
            lemma_append_same(start, falsified_lit.spec_var(), true);
            lemma_same_upto_shrinks(
                start,
                self@,
                start.trail.len() as int,
                start.initial_level as int,
            );
        }
        loop
            invariant
                self.wf(),
                start == old(self)@,
                start.wf(),
                depth == self.num_vars(),
                self.num_vars() == old(self).num_vars(),
                self.formula() == old(self).formula(),
                self.is_vetted() == old(self).is_vetted(),
                self.is_saturated() == old(self).is_saturated(),
                self.handed_out() == old(self).handed_out(),
                self.search_ok(seq![falsified_lit], Set::empty()),
                self.lit_in_range(falsified_lit),
                same_upto(start, self@, start.initial_level as int),
                formula == old(self).formula(),
                origin == old(self).state(),
                (first_lit, first) == decision(origin),
                forall|fuel: nat|
                    search_from(fuel + steps, formula, first, first_lit) == #[trigger] search_from(
                        fuel,
                        formula,
                        self.state(),
                        falsified_lit,
                    ),
            decreases pow3(depth) - progress(
                self@,
                self@.marks.len() as int,
                depth,
            ),
        {
            let ghost here = self@;
            let ghost here_state = self.state();
            let ghost here_lit = falsified_lit;
            proof {
                self.lemma_wf();
                lemma_marks_bounded_or_empty(here);
                lemma_progress_bound(here, depth);
            }
            match self.step(falsified_lit) {
                SolverAction::SAT => {
                    let values = self.assignment.to_solution();
                    proof {
                        assert(search_from(1, formula, here_state, here_lit) == Some(
                            Some(values@),
                        ));
                        assert(search_from(1 + steps, formula, first, first_lit) == Some(
                            Some(values@),
                        ));
                        assert(search((1 + steps) as nat, formula, origin) == Some(Some(values@)));
                    }
                    proof {
                        self.lemma_wf();
                        let now = self@;
                        lemma_same_upto_chain(start, here, now, start.initial_level as int);
                        now.lemma_trail_counts_assigned();
                        assert forall|v: int| 0 <= v < now.state.len() implies now.state[v]
                            != OptBool::Unassigned by {
                            assert(now.assigned(v));
                        }
                        if self.is_vetted() {
                            lemma_covered_quiet(self.formula(), now.state, self.is_saturated());
                            lemma_complete_is_model(self.formula(), now.state);
                        }
                        assert forall|j: int| 0 <= j < start.initial_level implies values@[(
                        #[trigger] start.trail[j]) as int] == value_at(start, j) by {
                            assert(start.trail[j] == now.trail[j]);
                            assert(now.state[now.trail[j] as int] != OptBool::Unassigned);
                        }
                    }
                    return Some(values);
                },
                SolverAction::Decision(next_falsified_lit) => {
                    proof {
                        self.lemma_wf();
                        lemma_marks_bounded_or_empty(self@);
                        lemma_progress_bound(self@, depth);
                        lemma_same_upto_chain(
                            start,
                            here,
                            self@,
                            start.initial_level as int,
                        );
                    }
                    proof {
                        assert forall|fuel: nat|
                            search_from(fuel + steps + 1, formula, first, first_lit)
                                == #[trigger] search_from(
                                fuel,
                                formula,
                                self.state(),
                                next_falsified_lit,
                            ) by {
                            let more = (fuel + 1) as nat;
                            assert(search_from(more, formula, here_state, here_lit) == search_from(
                                fuel,
                                formula,
                                self.state(),
                                next_falsified_lit,
                            ));
                            assert(search_from(more + steps, formula, first, first_lit)
                                == search_from(more, formula, here_state, here_lit));
                        }
                        steps = steps + 1;
                    }
                    falsified_lit = next_falsified_lit;
                },
                SolverAction::Backtrack => {
                    let ghost failed = self@;
                    let ghost failed_state = self.state();
                    proof {
                        self.lemma_wf();
                        lemma_same_upto_chain(start, here, failed, start.initial_level as int);
                        lemma_marks_bounded_or_empty(failed);
                    }
                    match self.backtrack() {
                        None => {
                            proof {
                                assert(search_from(1, formula, here_state, here_lit) == Some(
                                    None::<Seq<bool>>,
                                ));
                                assert(search_from(1 + steps, formula, first, first_lit) == Some(
                                    None::<Seq<bool>>,
                                ));
                                assert(search((1 + steps) as nat, formula, origin) == Some(
                                    None::<Seq<bool>>,
                                ));
                                lemma_same_upto(
                                    self.theory(),
                                    start,
                                    failed,
                                    start.initial_level as int,
                                );
                                assert forall|model: Seq<bool>|
                                    #![trigger agrees(model, start, start.initial_level as int)]
                                    crate::models::is_model(
                                        self.theory(),
                                        start.state.len(),
                                        model,
                                    ) implies !agrees(model, start, start.initial_level as int) by {
                                    assert(!agrees(model, failed, failed.initial_level as int));
                                }
                            }
                            return None;
                        },
                        Some(new_falsified_lit) => {
                            proof {
                                self.lemma_wf();
                                lemma_backtrack_progress(failed, depth);
                                lemma_marks_bounded_or_empty(self@);
                                lemma_progress_bound(self@, depth);
                                lemma_same_upto_chain(
                                    start,
                                    failed,
                                    self@,
                                    start.initial_level as int,
                                );
                                assert forall|fuel: nat|
                                    search_from(fuel + steps + 1, formula, first, first_lit)
                                        == #[trigger] search_from(
                                        fuel,
                                        formula,
                                        self.state(),
                                        new_falsified_lit,
                                    ) by {
                                    let more = (fuel + 1) as nat;
                                    assert(self.state() == (SearchState {
                                        a: failed_state.a.backtracked(),
                                        ..failed_state
                                    }));
                                    assert(search_from(more, formula, here_state, here_lit)
                                        == search_from(
                                        fuel,
                                        formula,
                                        self.state(),
                                        new_falsified_lit,
                                    ));
                                    assert(search_from(more + steps, formula, first, first_lit)
                                        == search_from(more, formula, here_state, here_lit));
                                }
                                steps = steps + 1;
                            }
                            falsified_lit = new_falsified_lit;
                        },
                    }
                },
            }
        }
    }

    /// Propagates from the literal that has just become false, and makes the
    /// next decision if that settles nothing.
    pub fn step(&mut self, next_falsified_lit: Lit) -> (action: SolverAction)
        requires
            old(self).wf(),
            old(self).lit_in_range(next_falsified_lit),
            old(self).search_ok(seq![next_falsified_lit], Set::empty()),
        ensures
            final(self).wf(),
            final(self).formula() == old(self).formula(),
            final(self).num_vars() == old(self).num_vars(),
            final(self).is_vetted() == old(self).is_vetted(),
            final(self).is_saturated() == old(self).is_saturated(),
            final(self).handed_out() == old(self).handed_out(),
            same_upto(
                old(self)@,
                final(self)@,
                old(self)@.initial_level as int,
            ),
            action == SolverAction::SAT ==> final(self).search_ok(Seq::empty(), Set::empty())
                && final(self)@.trail.len() == final(self).num_vars()
                && final(self)@.marks == old(self)@.marks,
            action == SolverAction::Backtrack ==> final(self).search_failed() && progress(
                final(self)@,
                final(self)@.marks.len() as int,
                old(self).num_vars(),
            ) == progress(
                old(self)@,
                old(self)@.marks.len() as int,
                old(self).num_vars(),
            ),
            match step_of(old(self).formula(), old(self).state(), next_falsified_lit) {
                Step::Sat(next) => action == SolverAction::SAT && final(self).state() == next,
                Step::Conflict(next) => action == SolverAction::Backtrack && final(self).state()
                    == next,
                Step::Decided(made_false, next) => action == SolverAction::Decision(made_false)
                    && final(self).state() == next,
            },
            action matches SolverAction::Decision(falsified) ==> final(self).search_ok(
                seq![falsified],
                Set::empty(),
            ) && final(self).lit_in_range(falsified) && progress(
                final(self)@,
                final(self)@.marks.len() as int,
                old(self).num_vars(),
            ) > progress(
                old(self)@,
                old(self)@.marks.len() as int,
                old(self).num_vars(),
            ),
    {
        let ghost before = self@;
        let ghost depth = self.num_vars();
        proof {
            self.lemma_wf();
            lemma_marks_bounded_or_empty(before);
        }
        let propagated = self.propagate_units_from(next_falsified_lit);
        let ghost mid = self@;
        proof {
            self.lemma_wf();
            lemma_marks_bounded_or_empty(mid);
            lemma_same_upto_levels(before, mid, depth);
            lemma_same_upto_shrinks(before, mid, before.trail.len() as int, before.initial_level as int);
        }
        match propagated {
            UnitPropagationResult::SAT => SolverAction::SAT,
            UnitPropagationResult::UNSAT => SolverAction::Backtrack,
            UnitPropagationResult::Undecided => {
                let falsified = self.make_branching_decision();
                proof {
                    lemma_decide_progress(mid, falsified.spec_var(), depth);
                    lemma_append_same(mid, falsified.spec_var(), true);
                    lemma_marks_bounded_or_empty(mid);
                    lemma_same_upto_shrinks(
                        mid,
                        self@,
                        mid.trail.len() as int,
                        before.initial_level as int,
                    );
                    lemma_same_upto_chain(
                        before,
                        mid,
                        self@,
                        before.initial_level as int,
                    );
                }
                SolverAction::Decision(falsified)
            },
        }
    }

    /// Unit propagation before any decision was made above the initial
    /// ones: looks at every clause once and propagates from what that finds.
    /// Since no clause is left out, the solver is vetted from here on.
    pub fn propagate_units_root(&mut self) -> (result: UnitPropagationResult)
        requires
            old(self).wf(),
            all_justified(old(self).theory(), old(self)@),
            !old(self)@.can_backtrack(),
        ensures
            final(self).wf(),
            final(self).formula() == old(self).formula(),
            final(self).num_vars() == old(self).num_vars(),
            final(self).is_vetted(),
            final(self).is_saturated(),
            final(self).handed_out() == old(self).handed_out(),
            final(self)@.marks == old(self)@.marks,
            same_upto(
                old(self)@,
                final(self)@,
                old(self)@.trail.len() as int,
            ),
            result == UnitPropagationResult::UNSAT ==> final(self).search_failed(),
            result != UnitPropagationResult::UNSAT ==> final(self).search_ok(
                Seq::empty(),
                Set::empty(),
            ),
            result == UnitPropagationResult::SAT <==> result != UnitPropagationResult::UNSAT
                && final(self)@.trail.len() == final(self).num_vars(),
            ({
                let found = propagation(
                    old(self).formula(),
                    old(self)@,
                    Seq::empty(),
                    all_ids(old(self).formula().len()),
                    0,
                );
                &&& final(self)@ == found.a
                &&& (result == UnitPropagationResult::UNSAT) == (found.conflict is Some)
                &&& final(self).activity() == after_propagation(
                    old(self).formula(),
                    old(self).activity(),
                    found,
                )
            }),
    {
        let ghost before = self@;
        self.falsified_lits_buffer.clear();
        proof {
            self.lemma_wf();
            self.vetted = Ghost(true);
            self.saturated = Ghost(true);
            assert(same_upto(before, before, before.trail.len() as int));
        }
        let problem = self.problem;
        let count = problem.num_clauses();
        let ghost formula = self.formula();
        let ghost target = propagation(formula, before, Seq::empty(), all_ids(count as nat), 0);
        let mut c: usize = 0;
        while c < count
            invariant
                self.wf(),
                problem == self.problem,
                count == self.formula().len(),
                formula == old(self).formula(),
                self.activity() == old(self).activity(),
                target == propagation(formula, before, Seq::empty(), all_ids(count as nat), 0),
                target == propagation(
                    formula,
                    self@,
                    self.falsified_lits_buffer@,
                    all_ids(count as nat),
                    c as int,
                ),
                c <= count,
                before == old(self)@,
                before.wf(),
                self.formula() == old(self).formula(),
                self.num_vars() == old(self).num_vars(),
                self.is_vetted(),
                self.is_saturated(),
                self.handed_out() == old(self).handed_out(),
                self@.marks == before.marks,
                same_upto(before, self@, before.trail.len() as int),
                self.pending_in_range(),
                self.search_ok(self.falsified_lits_buffer@, ids_from(c as int)),
            decreases count - c,
        {
            let ghost here = self@;
            if self.propagate_clause(
                c,
                Ghost(ids_from(c as int)),
                Ghost(all_ids(count as nat)),
                Ghost(c as int),
            ) {
                proof {
                    lemma_same_upto_chain(before, here, self@, before.trail.len() as int);
                }
                return UnitPropagationResult::UNSAT;
            }
            proof {
                self.lemma_wf();
                lemma_same_upto_shrinks(
                    here,
                    self@,
                    here.trail.len() as int,
                    before.trail.len() as int,
                );
                lemma_same_upto_chain(before, here, self@, before.trail.len() as int);
                lemma_covered_widen(
                    self.formula(),
                    self@.state,
                    self.falsified_lits_buffer@,
                    ids_from(c as int).remove(c as int),
                    ids_from(c + 1),
                    self.is_saturated(),
                );
            }
            c = c + 1;
        }
        let ghost scanned = self@;
        proof {
            assert(target == propagation(
                formula,
                self@,
                self.falsified_lits_buffer@,
                Seq::empty(),
                0,
            ));
            lemma_covered_widen(
                self.formula(),
                self@.state,
                self.falsified_lits_buffer@,
                ids_from(count as int),
                Set::empty(),
                self.is_saturated(),
            );
        }
        let result = self.propagate_falsified_lits();
        proof {
            lemma_same_upto_shrinks(
                scanned,
                self@,
                scanned.trail.len() as int,
                before.trail.len() as int,
            );
            lemma_same_upto_chain(before, scanned, self@, before.trail.len() as int);
        }
        result
    }

    /// Unit propagation from one literal that has just become false: the
    /// clauses that hold the literal are looked at in their order, then
    /// those of the literal that became false last, until none is pending.
    pub fn propagate_units_from(&mut self, falsified_lit: Lit) -> (result: UnitPropagationResult)
        requires
            old(self).wf(),
            old(self).lit_in_range(falsified_lit),
            old(self).search_ok(seq![falsified_lit], Set::empty()),
        ensures
            final(self).wf(),
            final(self).formula() == old(self).formula(),
            final(self).num_vars() == old(self).num_vars(),
            final(self).is_vetted() == old(self).is_vetted(),
            final(self).is_saturated() == old(self).is_saturated(),
            final(self).handed_out() == old(self).handed_out(),
            final(self)@.marks == old(self)@.marks,
            same_upto(
                old(self)@,
                final(self)@,
                old(self)@.trail.len() as int,
            ),
            result == UnitPropagationResult::UNSAT ==> final(self).search_failed(),
            result != UnitPropagationResult::UNSAT ==> final(self).search_ok(
                Seq::empty(),
                Set::empty(),
            ),
            result == UnitPropagationResult::SAT <==> result != UnitPropagationResult::UNSAT
                && final(self)@.trail.len() == final(self).num_vars(),
            ({
                let found = propagation(
                    old(self).formula(),
                    old(self)@,
                    seq![falsified_lit],
                    Seq::empty(),
                    0,
                );
                &&& final(self)@ == found.a
                &&& (result == UnitPropagationResult::UNSAT) == (found.conflict is Some)
                &&& final(self).activity() == after_propagation(
                    old(self).formula(),
                    old(self).activity(),
                    found,
                )
            }),
    {
        self.falsified_lits_buffer.clear();
        self.falsified_lits_buffer.push(falsified_lit);
        assert(self.falsified_lits_buffer@ =~= seq![falsified_lit]);
        self.propagate_falsified_lits()
    }

    /// Every pending literal names a variable of the formula.
    pub closed spec fn pending_in_range(&self) -> bool {
        forall|k: int|
            0 <= k < self.falsified_lits_buffer@.len() ==> (
            #[trigger] self.falsified_lits_buffer@[k]).spec_var() < self.problem.spec_num_vars()
    }

    /// Unit propagation from all pending literals, until none is left or a
    /// clause is falsified.
    fn propagate_falsified_lits(&mut self) -> (result: UnitPropagationResult)
        requires
            old(self).wf(),
            old(self).pending_in_range(),
            old(self).search_ok(old(self).falsified_lits_buffer@, Set::empty()),
        ensures
            final(self).wf(),
            final(self).formula() == old(self).formula(),
            final(self).num_vars() == old(self).num_vars(),
            final(self).is_vetted() == old(self).is_vetted(),
            final(self).is_saturated() == old(self).is_saturated(),
            final(self).handed_out() == old(self).handed_out(),
            final(self)@.marks == old(self)@.marks,
            same_upto(
                old(self)@,
                final(self)@,
                old(self)@.trail.len() as int,
            ),
            result == UnitPropagationResult::UNSAT ==> final(self).search_failed(),
            result != UnitPropagationResult::UNSAT ==> final(self).search_ok(
                Seq::empty(),
                Set::empty(),
            ),
            result == UnitPropagationResult::SAT <==> result != UnitPropagationResult::UNSAT
                && final(self)@.trail.len() == final(self).num_vars(),
            ({
                let found = propagation(
                    old(self).formula(),
                    old(self)@,
                    old(self).falsified_lits_buffer@,
                    Seq::empty(),
                    0,
                );
                &&& final(self)@ == found.a
                &&& (result == UnitPropagationResult::UNSAT) == (found.conflict is Some)
                &&& final(self).activity() == after_propagation(
                    old(self).formula(),
                    old(self).activity(),
                    found,
                )
            }),
    {
        let ghost before = self@;
        let problem = self.problem;
        let ghost formula = self.formula();
        let ghost target = propagation(
            formula,
            before,
            self.falsified_lits_buffer@,
            Seq::empty(),
            0,
        );
        proof {
            self.lemma_wf();
            assert(same_upto(before, before, before.trail.len() as int));
        }
        loop
            invariant
                self.wf(),
                problem == self.problem,
                before == old(self)@,
                before.wf(),
                formula == old(self).formula(),
                self.activity() == old(self).activity(),
                target == propagation(
                    formula,
                    old(self)@,
                    old(self).falsified_lits_buffer@,
                    Seq::empty(),
                    0,
                ),
                target == propagation(
                    formula,
                    self@,
                    self.falsified_lits_buffer@,
                    Seq::empty(),
                    0,
                ),
                self.formula() == old(self).formula(),
                self.num_vars() == old(self).num_vars(),
                self.is_vetted() == old(self).is_vetted(),
                self.is_saturated() == old(self).is_saturated(),
                self.handed_out() == old(self).handed_out(),
                self@.marks == before.marks,
                same_upto(before, self@, before.trail.len() as int),
                self.pending_in_range(),
                self.search_ok(self.falsified_lits_buffer@, Set::empty()),
            decreases
                    2 * (self.num_vars() - self@.trail.len())
                        + self.falsified_lits_buffer@.len(),
        {
            proof {
                self.lemma_wf();
                lemma_marks_bounded_or_empty(self@);
            }
            let ghost waiting = self.falsified_lits_buffer@;
            let lit = match self.falsified_lits_buffer.pop() {
                Some(lit) => lit,
                None => {
                    proof {
                        assert(self.falsified_lits_buffer@ =~= Seq::<Lit>::empty());
                    }
                    return if self.assignment.is_complete() {
                        UnitPropagationResult::SAT
                    } else {
                        UnitPropagationResult::Undecided
                    };
                },
            };
            let ghost budget = 2 * (self.num_vars() - self@.trail.len())
                + self.falsified_lits_buffer@.len();
            let ghost listed = problem.lit_index(lit);
            proof {
                problem.lemma_wf();
                assert(lit == waiting.last());
                assert(self.falsified_lits_buffer@ == waiting.drop_last());
                assert(lit.0 < 2 * problem.spec_num_vars());
                assert(listed == lit_occurrences(formula, lit));
                assert(target == propagation(
                    formula,
                    self@,
                    self.falsified_lits_buffer@,
                    listed,
                    0,
                ));
            }
            proof {
                let formula = self.formula();
                let state = self@.state;
                let left = self.falsified_lits_buffer@;
                if self.is_vetted() {
                    assert forall|c: int|
                        0 <= c < formula.len() && stirred(
                            state,
                            #[trigger] formula[c],
                            self.is_saturated(),
                        ) implies listed_from(listed, 0).contains(c) || exists|k: int|
                        0 <= k < left.len() && formula[c].contains(#[trigger] left[k]) by {
                        let k = choose|k: int|
                            0 <= k < waiting.len() && formula[c].contains(#[trigger] waiting[k]);
                        if k == left.len() {
                            problem.lemma_index_consistent(lit, c as usize);
                            assert(listed.contains(c as usize));
                            let i = choose|i: int| 0 <= i < listed.len() && listed[i] == c as usize;
                            assert(0 <= i < listed.len() && listed[i] == c);
                        } else {
                            assert(left[k] == waiting[k]);
                        }
                    }
                }
            }
            let count = problem.num_clauses_containing_lit(lit);
            let mut k: usize = 0;
            while k < count
                invariant
                    self.wf(),
                    problem == self.problem,
                    problem.wf(),
                    before == old(self)@,
                    before.wf(),
                    self.formula() == old(self).formula(),
                    self.num_vars() == old(self).num_vars(),
                    self.is_vetted() == old(self).is_vetted(),
                self.is_saturated() == old(self).is_saturated(),
                self.handed_out() == old(self).handed_out(),
                    self@.marks == before.marks,
                    same_upto(before, self@, before.trail.len() as int),
                    self.pending_in_range(),
                    lit.spec_var() < problem.spec_num_vars(),
                    listed == problem.lit_index(lit),
                    count == listed.len(),
                    k <= count,
                    formula == old(self).formula(),
                    self.activity() == old(self).activity(),
                    target == propagation(
                        formula,
                        old(self)@,
                        old(self).falsified_lits_buffer@,
                        Seq::empty(),
                        0,
                    ),
                    target == propagation(
                        formula,
                        self@,
                        self.falsified_lits_buffer@,
                        listed,
                        k as int,
                    ),
                    self.search_ok(self.falsified_lits_buffer@, listed_from(listed, k as int)),
                    2 * (self.num_vars() - self@.trail.len())
                        + self.falsified_lits_buffer@.len() <= budget,
                    self@.trail.len() <= self.num_vars(),
                decreases count - k,
            {
                let ghost here = self@;
                let c = problem.clause_containing_lit(lit, k);
                if self.propagate_clause(
                    c,
                    Ghost(listed_from(listed, k as int)),
                    Ghost(listed),
                    Ghost(k as int),
                ) {
                    proof {
                        lemma_same_upto_chain(
                            before,
                            here,
                            self@,
                            before.trail.len() as int,
                        );
                    }
                    return UnitPropagationResult::UNSAT;
                }
                proof {
                    self.lemma_wf();
                    lemma_marks_bounded_or_empty(self@);
                    lemma_same_upto_shrinks(
                        here,
                        self@,
                        here.trail.len() as int,
                        before.trail.len() as int,
                    );
                    lemma_same_upto_chain(
                        before,
                        here,
                        self@,
                        before.trail.len() as int,
                    );
                    if self.is_vetted() {
                        lemma_covered_widen(
                            self.formula(),
                            self@.state,
                            self.falsified_lits_buffer@,
                            listed_from(listed, k as int).remove(c as int),
                            listed_from(listed, k + 1),
                            self.is_saturated(),
                        );
                    }
                }
                k = k + 1;
            }
            proof {
                if self.is_vetted() {
                    lemma_covered_widen(
                        self.formula(),
                        self@.state,
                        self.falsified_lits_buffer@,
                        listed_from(listed, count as int),
                        Set::empty(),
                        self.is_saturated(),
                    );
                }
            }
        }
    }

    /// Looks at one clause. A falsified clause is a conflict: its variables
    /// are bumped, the conflict is counted, and the answer is true. The
    /// literal of a unit clause is made true, and its inverse joins the
    /// pending literals.
    fn propagate_clause(
        &mut self,
        c: usize,
        Ghost(rest): Ghost<Set<int>>,
        Ghost(listed): Ghost<Seq<usize>>,
        Ghost(k): Ghost<int>,
    ) -> (conflict: bool)
        requires
            old(self).wf(),
            c < old(self).formula().len(),
            old(self).pending_in_range(),
            old(self).search_ok(old(self).falsified_lits_buffer@, rest),
            0 <= k < listed.len(),
            listed[k] == c,
        ensures
            conflict ==> propagation(
                old(self).formula(),
                old(self)@,
                old(self).falsified_lits_buffer@,
                listed,
                k,
            ) == (Propagation { a: final(self)@, conflict: Some(c) }) && final(self).activity()
                == after_conflict(old(self).activity(), old(self).formula()[c as int]),
            !conflict ==> propagation(
                old(self).formula(),
                old(self)@,
                old(self).falsified_lits_buffer@,
                listed,
                k,
            ) == propagation(
                old(self).formula(),
                final(self)@,
                final(self).falsified_lits_buffer@,
                listed,
                k + 1,
            ) && final(self).activity() == old(self).activity(),
            final(self).wf(),
            final(self).problem == old(self).problem,
            final(self).formula() == old(self).formula(),
            final(self).num_vars() == old(self).num_vars(),
            final(self).is_vetted() == old(self).is_vetted(),
            final(self).is_saturated() == old(self).is_saturated(),
            final(self).handed_out() == old(self).handed_out(),
            final(self)@.marks == old(self)@.marks,
            same_upto(
                old(self)@,
                final(self)@,
                old(self)@.trail.len() as int,
            ),
            final(self).pending_in_range(),
            conflict ==> final(self).search_failed(),
            !conflict ==> final(self).search_ok(
                final(self).falsified_lits_buffer@,
                rest.remove(c as int),
            ),
            !conflict ==> 2 * (final(self).num_vars() - final(self)@.trail.len())
                + final(self).falsified_lits_buffer@.len() <= 2 * (old(self).num_vars() - old(self)@.trail.len()) + old(self).falsified_lits_buffer@.len(),
    {
        let problem = self.problem;
        let ghost formula = self.formula();
        let ghost before = self@;
        let ghost waiting = self.falsified_lits_buffer@;
        let ghost strict = self.is_saturated();
        proof {
            self.lemma_wf();
            assert(clause_in_range(formula[c as int], self.num_vars()));
            assert(same_upto(before, before, before.trail.len() as int));
            crate::clause::lemma_clause_state(before.state, formula[c as int]);
            lemma_unit_state(before.state, formula[c as int]);
            before.lemma_trail_counts_assigned();
            assert(vars_of(formula[c as int]) =~= Seq::new(
                formula[c as int].len(),
                |i: int| formula[c as int][i].spec_var(),
            ));
        }
        let clause = problem.clause(c);
        match clause.eval_with_partial(&self.assignment) {
            ClauseState::Satisfied => {
                proof {
                    if self.is_vetted() {
                        assert(!stirred(before.state, formula[c as int], strict));
                        assert(covered(
                            formula,
                            before.state,
                            waiting,
                            rest.remove(c as int),
                            strict,
                        ));
                    }
                }
                false
            },
            ClauseState::Undecided(_) => {
                proof {
                    if self.is_vetted() {
                        assert(!stirred(before.state, formula[c as int], strict));
                        assert(covered(
                            formula,
                            before.state,
                            waiting,
                            rest.remove(c as int),
                            strict,
                        ));
                    }
                }
                false
            },
            ClauseState::Unsatisfied => {
                proof {
                    lemma_conflict_dead(formula, before, c as int);
                    lemma_theory_refines(formula, self.handed_out(), Seq::empty(), self.num_vars());
                    lemma_refines(self.theory(), formula, before);
                }
                self.vsids.bump_lit_activities(clause);
                self.vsids.decay();
                true
            },
            ClauseState::Unit(unit_literal) => {
                proof {
                    lemma_unit_forced(formula, before, c as int, unit_literal);
                    lemma_theory_refines(formula, self.handed_out(), Seq::empty(), self.num_vars());
                    lemma_refines(
                        self.theory(),
                        formula,
                        before.propagated(unit_literal.spec_var(), unit_literal.spec_is_pos()),
                    );
                    lemma_append_justified(
                        self.theory(),
                        before,
                        unit_literal.spec_var(),
                        unit_literal.spec_is_pos(),
                    );
                    lemma_append_same(before, unit_literal.spec_var(), unit_literal.spec_is_pos());
                    before.lemma_assign_wf(unit_literal.spec_var(), unit_literal.spec_is_pos());
                    if self.is_vetted() {
                        lemma_append_levels_safe(
                            formula,
                            before,
                            unit_literal.spec_var(),
                            unit_literal.spec_is_pos(),
                            strict,
                        );
                        lemma_assign_covered(
                            formula,
                            before.state,
                            waiting,
                            rest,
                            unit_literal.spec_var(),
                            unit_literal.spec_is_pos(),
                            strict,
                        );
                    }
                }
                let var = unit_literal.var();
                self.assignment.propagate(var, unit_literal.is_pos());
                self.falsified_lits_buffer.push(unit_literal.inverted());
                proof {
                    let after = self@;
                    let looked_at = formula[c as int];
                    assert(self.falsified_lits_buffer@ == waiting.push(
                        Lit::spec_new(unit_literal.spec_var(), !unit_literal.spec_is_pos()),
                    ));
                    if self.is_vetted() {
                        let found = choose|at: int|
                            0 <= at < looked_at.len() && looked_at[at] == unit_literal;
                        assert(crate::clause::lit_true(after.state, looked_at[found]));
                        assert(!crate::clause::lit_false(after.state, looked_at[found]));
                        assert(!crate::clause::lit_unassigned(after.state, looked_at[found]));
                        assert(!clause_falsified(after.state, looked_at));
                        assert(!crate::clause::clause_unit(after.state, looked_at)) by {
                            if crate::clause::clause_unit(after.state, looked_at) {
                                let at = choose|at: int|
                                    0 <= at < looked_at.len() && crate::clause::lit_unassigned(
                                        after.state,
                                        #[trigger] looked_at[at],
                                    ) && forall|i: int|
                                        0 <= i < looked_at.len() && i != at
                                            ==> crate::clause::lit_false(
                                            after.state,
                                            #[trigger] looked_at[i],
                                        );
                                assert(found != at);
                                assert(crate::clause::lit_false(after.state, looked_at[found]));
                            }
                        }
                        assert(!stirred(after.state, looked_at, strict));
                    }
                }
                false
            },
        }
    }

    /// Hands the present branch out as a cube: appends the decisions of all
    /// levels to `cube` and counts the branch as done. What is left to
    /// search has no model on this branch, so the search backtracks from
    /// here as it does from a conflict.
    pub fn hand_out_branch(&mut self, cube: &mut Vec<Lit>)
        requires
            old(self).wf(),
            old(self).search_ok(Seq::empty(), Set::empty()),
        ensures
            final(self).wf(),
            final(self).formula() == old(self).formula(),
            final(self).num_vars() == old(self).num_vars(),
            final(self).is_vetted() == old(self).is_vetted(),
            final(self).is_saturated() == old(self).is_saturated(),
            final(self)@ == old(self)@,
            final(self).activity() == old(self).activity(),
            final(cube)@ == old(cube)@ + old(self)@.decisions(),
            final(self).handed_out() == old(self).handed_out().push(old(self)@.decisions()),
            final(self).search_failed(),
    {
        proof {
            self.lemma_wf();
            lemma_theory_refines(
                self.formula(),
                self.handed_out(),
                self@.decisions(),
                self.num_vars(),
            );
            lemma_refines(
                theory_of(self.formula(), self.handed_out().push(self@.decisions())),
                self.theory(),
                self@,
            );
            lemma_handed_out_dead(self.formula(), self.handed_out(), self@);
        }
        self.assignment.extract_decisions(cube);
        proof {
            self.handed_out = Ghost(self.handed_out@.push(self@.decisions()));
        }
    }

    /// Undoes the last level: its propagations, and its decision if both
    /// branches are done, else the decision is switched to its second
    /// branch. The variables that lose their value return to the heap.
    pub fn backtrack_one_level(&mut self) -> (result: BacktrackResult)
        requires
            old(self).wf(),
            old(self).search_failed(),
        ensures
            final(self).wf(),
            final(self).formula() == old(self).formula(),
            final(self).num_vars() == old(self).num_vars(),
            final(self).is_vetted() == old(self).is_vetted(),
            final(self).is_saturated() == old(self).is_saturated(),
            final(self).handed_out() == old(self).handed_out(),
            final(self)@ == old(self)@.backtracked_once(),
            final(self).activity() == old(self).activity(),
            result == old(self)@.backtrack_once_result(),
            result matches BacktrackResult::TryAlternative(falsified) ==> final(self).search_ok(
                seq![falsified],
                Set::empty(),
            ) && final(self).lit_in_range(falsified),
            result == BacktrackResult::ContinueBacktracking ==> final(self).search_failed(),
            result == BacktrackResult::NoMoreDecisions ==> base_refuted(
                old(self).theory(),
                old(self)@,
            ),
    {
        let ghost before = self@;
        proof {
            self.lemma_wf();
            before.lemma_backtracked_once_wf();
            if before.can_backtrack() {
                lemma_backtrack_same(before);
                if self.is_vetted() {
                    lemma_backtrack_safe(self.formula(), before, self.is_saturated());
                }
                if before.last_is_first_branch() {
                    lemma_flip_justified(self.theory(), before);
                } else {
                    lemma_pop_dead(self.theory(), before);
                }
            } else {
                lemma_exhausted(self.theory(), before);
            }
        }
        self.unassigned_buffer.clear();
        let result = self.assignment.backtrack_once(&mut self.unassigned_buffer);
        self.reinsert_unassigned(Ghost(before));
        result
    }

    /// Backtracks to the deepest level that has a branch left and enters
    /// it. Returns the literal that this has made false, or nothing if no
    /// level above the initial ones has a branch left. The variables that
    /// lose their value return to the heap.
    pub fn backtrack(&mut self) -> (falsified: Option<Lit>)
        requires
            old(self).wf(),
            old(self).search_failed(),
        ensures
            final(self).wf(),
            final(self).formula() == old(self).formula(),
            final(self).num_vars() == old(self).num_vars(),
            final(self).is_vetted() == old(self).is_vetted(),
            final(self).is_saturated() == old(self).is_saturated(),
            final(self).handed_out() == old(self).handed_out(),
            final(self)@ == old(self)@.backtracked(),
            final(self).activity() == old(self).activity(),
            falsified == old(self)@.backtrack_result(),
            same_upto(
                old(self)@,
                final(self)@,
                old(self)@.initial_level as int,
            ),
            falsified matches Some(lit) ==> final(self).search_ok(seq![lit], Set::empty())
                && final(self).lit_in_range(lit),
            falsified is None ==> base_refuted(old(self).theory(), old(self)@),
    {
        let ghost before = self@;
        proof {
            self.lemma_wf();
            lemma_backtracked(self.theory(), self.formula(), before, self.is_saturated());
        }
        self.unassigned_buffer.clear();
        let falsified = self.assignment.backtrack(&mut self.unassigned_buffer);
        self.reinsert_unassigned(Ghost(before));
        falsified
    }

    /// Puts the variables that backtracking from `before` has unassigned
    /// back into the heap.
    fn reinsert_unassigned(&mut self, Ghost(before): Ghost<AssignmentView>)
        requires
            old(self).problem.wf(),
            old(self).assignment.wf(),
            old(self).assignment.unmarked() == 0,
            old(self).vsids.wf(),
            before.wf(),
            before.num_vars() == old(self).problem.spec_num_vars(),
            old(self)@.num_vars() == old(self).problem.spec_num_vars(),
            old(self).vsids.num_vars() == old(self).problem.spec_num_vars(),
            old(self)@.trail.len() <= before.trail.len(),
            old(self)@.trail == before.trail.take(
                old(self)@.trail.len() as int,
            ),
            forall|v: int|
                0 <= v < before.num_vars() && !old(self)@.assigned(v) ==> !before.assigned(
                    v,
                ) || before.trail.contains(v as usize),
            old(self).unassigned_buffer@ == popped_suffix(
                before.trail,
                old(self)@.trail.len() as int,
            ),
            forall|v: usize|
                v < before.num_vars() && !before.assigned(v as int) ==> #[trigger] old(self).vsids.has(v),
        ensures
            final(self).wf(),
            final(self).problem == old(self).problem,
            final(self).assignment == old(self).assignment,
            final(self).vetted == old(self).vetted,
            final(self).saturated == old(self).saturated,
            final(self).handed_out == old(self).handed_out,
            final(self).falsified_lits_buffer == old(self).falsified_lits_buffer,
            final(self).activity() == old(self).activity(),
    {
        let ghost now = self@;
        proof {
            self.assignment.lemma_wf_view();
        }
        let count = self.unassigned_buffer.len();
        let mut i: usize = 0;
        while i < count
            invariant
                self.problem == old(self).problem,
                self.assignment == old(self).assignment,
                self.vetted == old(self).vetted,
                self.saturated == old(self).saturated,
                self.handed_out == old(self).handed_out,
                self.falsified_lits_buffer == old(self).falsified_lits_buffer,
                self.unassigned_buffer == old(self).unassigned_buffer,
                self.activity() == old(self).activity(),
                count == self.unassigned_buffer@.len(),
                i <= count,
                before.wf(),
                self.vsids.wf(),
                self.vsids.num_vars() == self.problem.spec_num_vars(),
                before.num_vars() == self.problem.spec_num_vars(),
                self.unassigned_buffer@ == popped_suffix(before.trail, now.trail.len() as int),
                now.trail.len() <= before.trail.len(),
                forall|v: usize|
                    v < before.num_vars() && !before.assigned(v as int)
                        ==> #[trigger] self.vsids.has(v),
                forall|j: int| 0 <= j < i ==> self.vsids.has(#[trigger] self.unassigned_buffer@[j]),
            decreases count - i,
        {
            let var = self.unassigned_buffer[i];
            assert(var == before.trail[before.trail.len() - 1 - i]);
            self.vsids.on_unassign_var(var);
            i = i + 1;
        }
        proof {
            assert forall|v: usize|
                v < self.problem.spec_num_vars() && !self@.assigned(
                    v as int,
                ) implies #[trigger] self.vsids.has(v) by {
                if before.assigned(v as int) {
                    assert(before.trail.contains(v));
                    let j = choose|j: int| 0 <= j < before.trail.len() && before.trail[j] == v;
                    if j < now.trail.len() {
                        assert(now.trail[j] == v);
                        assert(now.state[now.trail[j] as int] != OptBool::Unassigned);
                    }
                    let at = before.trail.len() - 1 - j;
                    assert(self.unassigned_buffer@[at] == v);
                }
            }
        }
    }

    /// Picks the most active variable without a value and decides it true.
    /// Returns the literal that this has made false, the negated one of the
    /// variable. Some variable must be without a value.
    ///
    /// No variable without a value outranks the one picked: none has a
    /// higher score, and none of the same score a smaller id.
    pub fn make_branching_decision(&mut self) -> (falsified: Lit)
        requires
            old(self).wf(),
            old(self).search_ok(Seq::empty(), Set::empty()),
            old(self)@.trail.len() < old(self).num_vars(),
        ensures
            final(self).wf(),
            final(self).formula() == old(self).formula(),
            final(self).num_vars() == old(self).num_vars(),
            final(self).is_vetted() == old(self).is_vetted(),
            final(self).is_saturated() == old(self).is_saturated(),
            final(self).handed_out() == old(self).handed_out(),
            final(self).lit_in_range(falsified),
            falsified.spec_is_neg(),
            !old(self)@.assigned(falsified.spec_var() as int),
            final(self)@ == old(self)@.decided(falsified.spec_var()),
            final(self).search_ok(seq![falsified], Set::empty()),
            final(self).scores() == old(self).scores(),
            final(self).activity() == old(self).activity(),
            (falsified, final(self).state()) == decision(old(self).state()),
            forall|u: usize|
                u < old(self).num_vars() && !old(self)@.assigned(u as int) ==> !crate::indexed_heap::outranks(
                    old(self).scores(),
                    u,
                    falsified.spec_var(),
                ),
    {
        let ghost before = self@;
        let ghost formula = self.formula();
        proof {
            self.lemma_wf();
            before.lemma_trail_counts_assigned();
            let free = choose|v: int| 0 <= v < before.state.len() && !before.assigned(v);
            assert(self.vsids.has(free as usize));
        }
        let picked = self.vsids.pop_most_active_unassigned_var(&self.assignment);
        let decision_var = picked.unwrap();
        proof {
            lemma_append_justified(self.theory(), before, decision_var, true);
            before.lemma_assign_wf(decision_var, true);
            if self.is_vetted() {
                lemma_covered_quiet(formula, before.state, self.is_saturated());
                lemma_append_levels_safe(
                    formula,
                    before,
                    decision_var,
                    true,
                    self.is_saturated(),
                );
                lemma_assign_covered(
                    formula,
                    before.state,
                    Seq::empty(),
                    Set::empty(),
                    decision_var,
                    true,
                    self.is_saturated(),
                );
                assert(Seq::<Lit>::empty().push(Lit::spec_new(decision_var, false)) =~= seq![
                    Lit::spec_new(decision_var, false),
                ]);
            }
        }
        proof {
            let scores = old(self).activity().scores;
            assert forall|u: usize|
                u < before.state.len() && before.state[u as int]
                    == OptBool::Unassigned implies !crate::indexed_heap::outranks(
                scores,
                u,
                decision_var,
            ) by {
                assert(!before.assigned(u as int));
                assert(old(self).vsids.has(u));
            }
            assert(is_top_unassigned(scores, before.state, decision_var));
            lemma_top_unassigned(scores, before.state, decision_var);
        }
        self.assignment.decide(decision_var);
        Lit::new(decision_var, true).inverted()
    }
}

} // verus!
